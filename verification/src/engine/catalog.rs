//! The catalog: which collections exist, and the file that remembers them.
//!
//! The file is a snapshot envelope around the serialized configurations. Its log
//! position is the catalog's own watermark: every record up to it, in particular
//! every new collection, is in the file. A corrupt catalog is an error, unlike a
//! corrupt store: collections that were declared on opening are logged nowhere.

use vstd::prelude::*;

use crate::checksum;
use crate::codec;
use crate::error;
use crate::error::{Error, Result};
use crate::metadata::common::{CollectionConfig, ConfigView};
use crate::text;
use crate::text::{join2, numeral, same_text};

verus! {

/// The version of the catalog format.
pub const VERSION: u32 = 2;

/// The four bytes that open a catalog: `CAT0`.
pub open spec fn magic() -> Seq<u8> {
    seq![0x43u8, 0x41u8, 0x54u8, 0x30u8]
}

fn magic_bytes() -> (m: Vec<u8>)
    ensures
        m@ == magic(),
{
    let m: Vec<u8> = vec![0x43u8, 0x41u8, 0x54u8, 0x30u8];
    proof {
        assert(m@ =~= magic());
    }
    m
}

/// The name of the directory that a collection's files are in.
pub fn collection_dir(id: u32) -> (name: String)
    ensures
        name@ == "collection-"@ + text::decimal(id as nat),
{
    join2("collection-", numeral(id as u64).as_str())
}

/// What a run of configurations holds.
pub open spec fn configs_view(configs: Seq<CollectionConfig>) -> Seq<ConfigView> {
    configs.map_values(|c: CollectionConfig| c@)
}

/// What parsing a catalog body gave.
pub open spec fn parsed_view(
    parsed: std::result::Result<Vec<CollectionConfig>, String>,
) -> std::result::Result<Seq<ConfigView>, Seq<char>> {
    match parsed {
        Ok(configs) => Ok(configs_view(configs@)),
        Err(why) => Err(why@),
    }
}

/// The configurations and the watermark that a catalog file stands for, or what
/// is wrong with it.
pub open spec fn decoded(
    bytes: Seq<u8>,
    parsed: std::result::Result<Seq<ConfigView>, Seq<char>>,
) -> std::result::Result<(Seq<ConfigView>, u64), Seq<char>> {
    match codec::opened(magic(), VERSION, bytes) {
        Err(why) => Err("catalog: "@ + why),
        Ok((lsn, _)) => match parsed {
            Err(why) => Err("catalog body: "@ + why),
            Ok(registry) => Ok((registry, lsn)),
        },
    }
}

/// The catalog file for the given watermark, around a serialized body. A file in
/// which one byte has changed is refused, whatever its body parses to.
pub fn encode_catalog(body: &[u8], last_lsn: u64) -> (bytes: Vec<u8>)
    ensures
        bytes@ == codec::envelope(magic(), VERSION, last_lsn, body@),
        forall|b: Seq<u8>, parsed: std::result::Result<Seq<ConfigView>, Seq<char>>|
            checksum::one_byte_apart(bytes@, b) ==> #[trigger] decoded(b, parsed) is Err,
{
    codec::write_envelope(magic_bytes().as_slice(), VERSION, last_lsn, body)
}

/// The body of a catalog file, for the caller to parse.
pub fn catalog_body<'a>(bytes: &'a [u8]) -> (r: Result<&'a [u8]>)
    ensures
        match codec::opened(magic(), VERSION, bytes@) {
            Ok((_, body)) => r matches Ok(b) && b@ == body,
            Err(why) => r matches Err(e) && error::is_corrupt(e, "catalog: "@ + why),
        },
{
    match codec::read_envelope(magic_bytes().as_slice(), VERSION, bytes) {
        Ok((_, body)) => Ok(body),
        Err(why) => Err(Error::CorruptSnapshot(join2("catalog: ", why.as_str()))),
    }
}

/// The configurations and the watermark of a catalog file, whose body the caller
/// has parsed. The checksum is looked at before anything else.
pub fn decode_catalog(
    bytes: &[u8],
    parsed: std::result::Result<Vec<CollectionConfig>, String>,
) -> (r: Result<(Vec<CollectionConfig>, u64)>)
    ensures
        match decoded(bytes@, parsed_view(parsed)) {
            Ok((registry, lsn)) => r matches Ok(x) && configs_view(x.0@) == registry && x.1 == lsn,
            Err(why) => r matches Err(e) && error::is_corrupt(e, why),
        },
{
    match codec::read_envelope(magic_bytes().as_slice(), VERSION, bytes) {
        Err(why) => Err(Error::CorruptSnapshot(join2("catalog: ", why.as_str()))),
        Ok((lsn, _)) => match parsed {
            Ok(registry) => Ok((registry, lsn)),
            Err(why) => Err(Error::CorruptSnapshot(join2("catalog body: ", why.as_str()))),
        },
    }
}

/// The catalog of a database: a missing file is a fresh database, a corrupt one is
/// an error.
pub fn load_catalog(
    file: Option<&[u8]>,
    parsed: std::result::Result<Vec<CollectionConfig>, String>,
) -> (r: Result<(Vec<CollectionConfig>, u64)>)
    ensures
        match file {
            None => r matches Ok(x) && x.0@.len() == 0 && x.1 == 0,
            Some(bytes) => match decoded(bytes@, parsed_view(parsed)) {
                Ok((registry, lsn)) => r matches Ok(x) && configs_view(x.0@) == registry && x.1
                    == lsn,
                Err(why) => r matches Err(e) && error::is_corrupt(e, why),
            },
        },
{
    match file {
        None => Ok((Vec::new(), 0)),
        Some(bytes) => decode_catalog(bytes, parsed),
    }
}

/// A catalog file reads back as the configurations and the watermark that were
/// written.
pub proof fn law_catalog_round_trip(registry: Seq<ConfigView>, body: Seq<u8>, lsn: u64)
    requires
        body.len() <= u32::MAX,
    ensures
        decoded(codec::envelope(magic(), VERSION, lsn, body), Ok(registry)) == Ok::<
            (Seq<ConfigView>, u64),
            Seq<char>,
        >((registry, lsn)),
{
    codec::law_envelope_round_trip(magic(), VERSION, lsn, body);
}

// ---------------------------------------------------------------------------
// The registry
// ---------------------------------------------------------------------------

/// Whether a configuration has the given id.
pub open spec fn has_id(registry: Seq<ConfigView>, id: u32) -> bool {
    exists|i: int| 0 <= i < registry.len() && (#[trigger] registry[i]).id == id
}

/// Whether a configuration has the given name.
pub open spec fn has_name(registry: Seq<ConfigView>, name: Seq<char>) -> bool {
    exists|i: int| 0 <= i < registry.len() && (#[trigger] registry[i]).name == name
}

/// The first configuration of the given id.
pub open spec fn of_id(registry: Seq<ConfigView>, id: u32) -> Option<ConfigView>
    decreases registry.len(),
{
    if registry.len() == 0 {
        None
    } else if registry[0].id == id {
        Some(registry[0])
    } else {
        of_id(registry.drop_first(), id)
    }
}

proof fn lemma_of_id(registry: Seq<ConfigView>, id: u32)
    ensures
        of_id(registry, id) is Some <==> has_id(registry, id),
        of_id(registry, id) matches Some(c) ==> c.id == id && registry.contains(c),
    decreases registry.len(),
{
    if registry.len() > 0 {
        let rest = registry.drop_first();
        lemma_of_id(rest, id);
        if registry[0].id == id {
            assert(has_id(registry, id));
        } else {
            if has_id(registry, id) {
                let i = choose|i: int|
                    0 <= i < registry.len() && (#[trigger] registry[i]).id == id;
                assert(rest[i - 1].id == id);
            }
            if has_id(rest, id) {
                let i = choose|i: int| 0 <= i < rest.len() && (#[trigger] rest[i]).id == id;
                assert(registry[i + 1].id == id);
            }
            if let Some(c) = of_id(registry, id) {
                let i = choose|i: int| 0 <= i < rest.len() && rest[i] == c;
                assert(registry[i + 1] == c);
            }
        }
    }
}

/// The first configuration of the given id.
pub fn find(registry: &[CollectionConfig], id: u32) -> (r: Option<&CollectionConfig>)
    ensures
        match r {
            Some(c) => of_id(configs_view(registry@), id) == Some(c@),
            None => of_id(configs_view(registry@), id) is None,
        },
{
    let ghost view = configs_view(registry@);
    let mut i: usize = 0;
    proof {
        assert(view.skip(0) =~= view);
    }
    while i < registry.len()
        invariant
            i <= registry@.len(),
            view == configs_view(registry@),
            of_id(view, id) == of_id(view.skip(i as int), id),
        decreases registry@.len() - i,
    {
        assert(view.skip(i as int)[0] == registry@[i as int]@);
        if registry[i].id == id {
            return Some(&registry[i]);
        }
        assert(view.skip(i as int).drop_first() =~= view.skip(i + 1));
        i += 1;
    }
    None
}

/// Whether a configuration has the given name.
pub fn name_taken(registry: &[CollectionConfig], name: &str) -> (r: bool)
    ensures
        r == has_name(configs_view(registry@), name@),
{
    let ghost view = configs_view(registry@);
    let mut i: usize = 0;
    while i < registry.len()
        invariant
            i <= registry@.len(),
            view == configs_view(registry@),
            forall|k: int| 0 <= k < i ==> (#[trigger] view[k]).name != name@,
        decreases registry@.len() - i,
    {
        assert(view[i as int] == registry@[i as int]@);
        if same_text(registry[i].name.as_str(), name) {
            return true;
        }
        i += 1;
    }
    false
}

/// Whether the very configuration is registered.
pub fn registered(registry: &[CollectionConfig], config: &CollectionConfig) -> (r: bool)
    ensures
        r == configs_view(registry@).contains(config@),
{
    let ghost view = configs_view(registry@);
    let mut i: usize = 0;
    while i < registry.len()
        invariant
            i <= registry@.len(),
            view == configs_view(registry@),
            forall|k: int| 0 <= k < i ==> #[trigger] view[k] != config@,
        decreases registry@.len() - i,
    {
        assert(view[i as int] == registry@[i as int]@);
        if registry[i].same(config) {
            return true;
        }
        i += 1;
    }
    false
}

/// Why configurations cannot be merged.
pub enum MergeFault {
    /// One of them disagrees with the registered one of the same id.
    Mismatch(u32),
    /// A new one has a name that is taken.
    NameTaken(Seq<char>),
}

/// The registry after the first `n` of `given` were ensured: a new id is added, a
/// known id must come with the registered configuration.
pub open spec fn merged(
    registry: Seq<ConfigView>,
    given: Seq<ConfigView>,
    n: nat,
) -> std::result::Result<Seq<ConfigView>, MergeFault>
    decreases n,
{
    if n == 0 {
        Ok(registry)
    } else {
        match merged(registry, given, (n - 1) as nat) {
            Err(fault) => Err(fault),
            Ok(before) => {
                let config = given[n - 1];
                match of_id(before, config.id) {
                    Some(existing) => if existing == config {
                        Ok(before)
                    } else {
                        Err(MergeFault::Mismatch(config.id))
                    },
                    None => if has_name(before, config.name) {
                        Err(MergeFault::NameTaken(config.name))
                    } else {
                        Ok(before.push(config))
                    },
                }
            },
        }
    }
}

/// Where a configuration of the given id goes among those in id order: behind
/// every one that is not greater.
pub open spec fn seat(registry: Seq<ConfigView>, id: u32) -> int
    decreases registry.len(),
{
    if registry.len() == 0 {
        0
    } else if registry.last().id <= id {
        registry.len() as int
    } else {
        seat(registry.drop_last(), id)
    }
}

/// The configurations in id order, equal ids as they stand.
pub open spec fn by_id(registry: Seq<ConfigView>) -> Seq<ConfigView>
    decreases registry.len(),
{
    if registry.len() == 0 {
        Seq::empty()
    } else {
        let before = by_id(registry.drop_last());
        before.insert(seat(before, registry.last().id), registry.last())
    }
}

/// Ids rise or stay.
pub open spec fn in_id_order(registry: Seq<ConfigView>) -> bool {
    forall|i: int, j: int|
        0 <= i < j < registry.len() ==> (#[trigger] registry[i]).id <= (#[trigger] registry[j]).id
}

proof fn lemma_seat(registry: Seq<ConfigView>, id: u32)
    requires
        in_id_order(registry),
    ensures
        0 <= seat(registry, id) <= registry.len(),
        forall|i: int| 0 <= i < seat(registry, id) ==> (#[trigger] registry[i]).id <= id,
        forall|i: int|
            seat(registry, id) <= i < registry.len() ==> (#[trigger] registry[i]).id > id,
    decreases registry.len(),
{
    if registry.len() > 0 && registry.last().id > id {
        let rest = registry.drop_last();
        lemma_seat(rest, id);
        assert forall|i: int| seat(registry, id) <= i < registry.len() implies (
        #[trigger] registry[i]).id > id by {
            if i < rest.len() {
                assert(rest[i].id > id);
            }
        }
        assert forall|i: int| 0 <= i < seat(registry, id) implies (#[trigger] registry[i]).id
            <= id by {
            assert(rest[i].id <= id);
        }
    }
}

/// Sorting by id keeps the configurations, each as often as before, and puts them
/// in id order.
pub proof fn law_by_id_sorts(registry: Seq<ConfigView>)
    ensures
        in_id_order(by_id(registry)),
        by_id(registry).to_multiset() == registry.to_multiset(),
        by_id(registry).len() == registry.len(),
    decreases registry.len(),
{
    broadcast use vstd::seq_lib::group_to_multiset_ensures;

    if registry.len() > 0 {
        let before = by_id(registry.drop_last());
        let last = registry.last();
        law_by_id_sorts(registry.drop_last());
        lemma_seat(before, last.id);
        let at = seat(before, last.id);
        let now = before.insert(at, last);
        assert forall|i: int, j: int| 0 <= i < j < now.len() implies (#[trigger] now[i]).id <= (
        #[trigger] now[j]).id by {
            if i < at {
                assert(now[i] == before[i]);
            } else if i > at {
                assert(now[i] == before[i - 1]);
            }
            if j < at {
                assert(now[j] == before[j]);
            } else if j > at {
                assert(now[j] == before[j - 1]);
            }
        }
        assert(registry =~= registry.drop_last().push(last));
        assert(now.to_multiset() =~= registry.to_multiset());
    } else {
        assert(by_id(registry) =~= registry);
    }
}

/// Sorting by id adds and loses no id and no name.
pub proof fn lemma_by_id_keeps(registry: Seq<ConfigView>, config: ConfigView)
    ensures
        by_id(registry).contains(config) == registry.contains(config),
        has_id(by_id(registry), config.id) == has_id(registry, config.id),
        has_name(by_id(registry), config.name) == has_name(registry, config.name),
{
    let sorted = by_id(registry);
    assert forall|c: ConfigView| #[trigger] sorted.contains(c) == registry.contains(c) by {
        law_by_id_sorts(registry);
        sorted.to_multiset_ensures();
        registry.to_multiset_ensures();
        assert(sorted.to_multiset().count(c) == registry.to_multiset().count(c));
    }
    if has_id(sorted, config.id) {
        let i = choose|i: int| 0 <= i < sorted.len() && (#[trigger] sorted[i]).id == config.id;
        assert(sorted.contains(sorted[i]));
        let j = choose|j: int| 0 <= j < registry.len() && registry[j] == sorted[i];
        assert(registry[j].id == config.id);
    }
    if has_id(registry, config.id) {
        let i = choose|i: int|
            0 <= i < registry.len() && (#[trigger] registry[i]).id == config.id;
        assert(registry.contains(registry[i]));
        assert(sorted.contains(registry[i]));
        let j = choose|j: int| 0 <= j < sorted.len() && sorted[j] == registry[i];
        assert(sorted[j].id == config.id);
    }
    if has_name(sorted, config.name) {
        let i = choose|i: int|
            0 <= i < sorted.len() && (#[trigger] sorted[i]).name == config.name;
        assert(sorted.contains(sorted[i]));
        let j = choose|j: int| 0 <= j < registry.len() && registry[j] == sorted[i];
        assert(registry[j].name == config.name);
    }
    if has_name(registry, config.name) {
        let i = choose|i: int|
            0 <= i < registry.len() && (#[trigger] registry[i]).name == config.name;
        assert(registry.contains(registry[i]));
        assert(sorted.contains(registry[i]));
        let j = choose|j: int| 0 <= j < sorted.len() && sorted[j] == registry[i];
        assert(sorted[j].name == config.name);
    }
}

/// Puts a configuration into its place by id.
fn place(sorted: &mut Vec<CollectionConfig>, config: CollectionConfig)
    ensures
        configs_view(final(sorted)@) == configs_view(old(sorted)@).insert(
            seat(configs_view(old(sorted)@), config.id),
            config@,
        ),
{
    let ghost view = configs_view(sorted@);
    let ghost before = sorted@;
    let mut at: usize = sorted.len();
    proof {
        assert(view.take(at as int) =~= view);
    }
    while at > 0 && sorted[at - 1].id > config.id
        invariant
            at <= sorted@.len(),
            sorted@ == before,
            view == configs_view(sorted@),
            seat(view, config.id) == seat(view.take(at as int), config.id),
        decreases at,
    {
        proof {
            assert(view.take(at as int).last() == sorted@[at - 1]@);
            assert(view.take(at as int).drop_last() =~= view.take(at - 1));
        }
        at -= 1;
    }
    proof {
        if at > 0 {
            assert(view.take(at as int).last() == sorted@[at - 1]@);
        }
        assert(seat(view, config.id) == at);
    }
    sorted.insert(at, config);
    proof {
        assert(configs_view(sorted@) =~= view.insert(at as int, config@));
    }
}

/// The configurations in id order, equal ids as they stand.
pub fn sorted_by_id(configs: &[CollectionConfig]) -> (sorted: Vec<CollectionConfig>)
    ensures
        configs_view(sorted@) == by_id(configs_view(configs@)),
{
    let ghost view = configs_view(configs@);
    let mut sorted: Vec<CollectionConfig> = Vec::new();
    let mut i: usize = 0;
    proof {
        assert(view.take(0) =~= Seq::<ConfigView>::empty());
        assert(configs_view(sorted@) =~= by_id(view.take(0)));
    }
    while i < configs.len()
        invariant
            i <= configs@.len(),
            view == configs_view(configs@),
            configs_view(sorted@) == by_id(view.take(i as int)),
        decreases configs@.len() - i,
    {
        proof {
            assert(view.take(i + 1).drop_last() =~= view.take(i as int));
            assert(view.take(i + 1).last() == configs@[i as int]@);
        }
        place(&mut sorted, configs[i].clone());
        i += 1;
    }
    proof {
        assert(view.take(i as int) =~= view);
    }
    sorted
}

/// The registry on opening: the persisted one with the given configurations
/// ensured, in id order, and whether it has to be persisted, which it has unless
/// the file was `present` and nothing was added.
pub fn merge(
    persisted: Vec<CollectionConfig>,
    present: bool,
    given: &[CollectionConfig],
) -> (r: Result<(Vec<CollectionConfig>, bool)>)
    ensures
        match merged(configs_view(persisted@), configs_view(given@), given@.len()) {
            Ok(all) => r matches Ok((registry, dirty)) && configs_view(registry@) == by_id(all)
                && dirty == (!present || all.len() > persisted@.len()),
            Err(MergeFault::Mismatch(id)) => r == Err::<(Vec<CollectionConfig>, bool), Error>(
                Error::CollectionConfigMismatch { id },
            ),
            Err(MergeFault::NameTaken(name)) => r matches Err(Error::CollectionExists { name: n })
                && n@ == name,
        },
{
    let ghost was = configs_view(persisted@);
    let ghost views = configs_view(given@);
    let mut registry: Vec<CollectionConfig> = persisted;
    let mut dirty: bool = !present;
    let mut i: usize = 0;
    while i < given.len()
        invariant
            i <= given@.len(),
            was == configs_view(persisted@),
            views == configs_view(given@),
            merged(was, views, i as nat) == Ok::<Seq<ConfigView>, MergeFault>(
                configs_view(registry@),
            ),
            registry@.len() >= was.len(),
            dirty == (!present || registry@.len() > was.len()),
        decreases given@.len() - i,
    {
        assert(views[i as int] == given@[i as int]@);
        match find(registry.as_slice(), given[i].id) {
            Some(existing) => {
                if !existing.same(&given[i]) {
                    proof {
                        lemma_merge_stops(was, views, (i + 1) as nat, views.len());
                    }
                    return Err(Error::CollectionConfigMismatch { id: given[i].id });
                }
            },
            None => {
                if name_taken(registry.as_slice(), given[i].name.as_str()) {
                    proof {
                        lemma_merge_stops(was, views, (i + 1) as nat, views.len());
                    }
                    return Err(Error::CollectionExists { name: given[i].name.clone() });
                }
                let ghost before = configs_view(registry@);
                registry.push(given[i].clone());
                proof {
                    assert(configs_view(registry@) =~= before.push(views[i as int]));
                }
                dirty = true;
            },
        }
        i += 1;
    }
    Ok((sorted_by_id(registry.as_slice()), dirty))
}

proof fn lemma_merge_stops(
    registry: Seq<ConfigView>,
    given: Seq<ConfigView>,
    m: nat,
    n: nat,
)
    requires
        m <= n,
        merged(registry, given, m) is Err,
    ensures
        merged(registry, given, n) == merged(registry, given, m),
    decreases n - m,
{
    if m < n {
        lemma_merge_stops(registry, given, m, (n - 1) as nat);
    }
}

/// No two configurations have one id, nor one name.
pub open spec fn distinct(registry: Seq<ConfigView>) -> bool {
    forall|i: int, j: int|
        0 <= i < j < registry.len() ==> (#[trigger] registry[i]).id != (#[trigger] registry[j]).id
            && registry[i].name != registry[j].name
}

/// Merging loses no registered collection, registers every given one, and keeps
/// ids and names unique.
pub proof fn law_merge_ensures_all(
    registry: Seq<ConfigView>,
    given: Seq<ConfigView>,
    n: nat,
)
    requires
        n <= given.len(),
        merged(registry, given, n) is Ok,
    ensures
        ({
            let all = merged(registry, given, n)->Ok_0;
            &&& registry.len() <= all.len() && all.take(registry.len() as int) == registry
            &&& forall|i: int| 0 <= i < n ==> all.contains(#[trigger] given[i])
            &&& distinct(registry) ==> distinct(all)
        }),
    decreases n,
{
    let all = merged(registry, given, n)->Ok_0;
    if n == 0 {
        assert(all.take(registry.len() as int) =~= registry);
    } else {
        let before = merged(registry, given, (n - 1) as nat)->Ok_0;
        law_merge_ensures_all(registry, given, (n - 1) as nat);
        let config = given[n - 1];
        lemma_of_id(before, config.id);
        if of_id(before, config.id) is None {
            assert(all == before.push(config));
            assert(all[before.len() as int] == config);
            assert forall|i: int| 0 <= i < n implies all.contains(#[trigger] given[i]) by {
                if i < n - 1 {
                    let k = choose|k: int| 0 <= k < before.len() && before[k] == given[i];
                    assert(all[k] == given[i]);
                }
            }
            assert(all.take(registry.len() as int) =~= before.take(registry.len() as int));
            if distinct(registry) {
                assert forall|i: int, j: int| 0 <= i < j < all.len() implies (
                #[trigger] all[i]).id != (#[trigger] all[j]).id && all[i].name
                    != all[j].name by {
                    assert(all[i] == before[i]);
                    if j < before.len() {
                        assert(all[j] == before[j]);
                    } else {
                        if all[i].id == config.id {
                            assert(has_id(before, config.id));
                        }
                        if all[i].name == config.name {
                            assert(has_name(before, config.name));
                        }
                    }
                }
            }
        }
    }
}

/// Merging again what was merged changes nothing.
pub proof fn law_merge_again(registry: Seq<ConfigView>, given: Seq<ConfigView>, n: nat)
    requires
        n <= given.len(),
        distinct(registry),
        forall|i: int| 0 <= i < n ==> registry.contains(#[trigger] given[i]),
    ensures
        merged(registry, given, n) == Ok::<Seq<ConfigView>, MergeFault>(registry),
    decreases n,
{
    if n > 0 {
        law_merge_again(registry, given, (n - 1) as nat);
        let config = given[n - 1];
        assert(registry.contains(config));
        lemma_of_id(registry, config.id);
        let i = choose|i: int| 0 <= i < registry.len() && registry[i] == config;
        assert(has_id(registry, config.id));
        let c = of_id(registry, config.id)->0;
        let j = choose|j: int| 0 <= j < registry.len() && registry[j] == c;
        if i < j {
            assert(registry[i].id != registry[j].id);
        } else if j < i {
            assert(registry[j].id != registry[i].id);
        }
    }
}

/// What a refusal to merge says is true: some given configuration has the id of another
/// one, which is registered or given before it and differs from it; or it is new and has
/// the name of such a one.
pub proof fn law_merge_refusal(registry: Seq<ConfigView>, given: Seq<ConfigView>, n: nat)
    requires
        n <= given.len(),
    ensures
        match merged(registry, given, n) {
            Ok(_) => true,
            Err(MergeFault::Mismatch(id)) => exists|k: int|
                0 <= k < n && (#[trigger] given[k]).id == id && exists|c: ConfigView|
                    c.id == id && c != given[k] && #[trigger] among(registry, given, k, c),
            Err(MergeFault::NameTaken(name)) => exists|k: int|
                0 <= k < n && (#[trigger] given[k]).name == name && exists|c: ConfigView|
                    c.name == name && c.id != given[k].id && #[trigger] among(
                        registry,
                        given,
                        k,
                        c,
                    ),
        },
    decreases n,
{
    if n > 0 {
        law_merge_refusal(registry, given, (n - 1) as nat);
        match merged(registry, given, (n - 1) as nat) {
            Err(MergeFault::Mismatch(id)) => {
                let k = choose|k: int|
                    0 <= k < n - 1 && (#[trigger] given[k]).id == id && exists|c: ConfigView|
                        c.id == id && c != given[k] && #[trigger] among(registry, given, k, c);
                assert(given[k].id == id);
            },
            Err(MergeFault::NameTaken(name)) => {
                let k = choose|k: int|
                    0 <= k < n - 1 && (#[trigger] given[k]).name == name && exists|c: ConfigView|
                        c.name == name && c.id != given[k].id && #[trigger] among(
                            registry,
                            given,
                            k,
                            c,
                        );
                assert(given[k].name == name);
            },
            Ok(before) => {
                let config = given[n - 1];
                lemma_merged_from(registry, given, (n - 1) as nat);
                lemma_of_id(before, config.id);
                match of_id(before, config.id) {
                    Some(c) => {
                        assert(before.contains(c));
                        assert(among(registry, given, n - 1, c));
                    },
                    None => {
                        if has_name(before, config.name) {
                            let i = choose|i: int|
                                0 <= i < before.len() && (#[trigger] before[i]).name
                                    == config.name;
                            assert(before.contains(before[i]));
                            assert(among(registry, given, n - 1, before[i]));
                            assert(before[i].id != config.id) by {
                                if before[i].id == config.id {
                                    assert(has_id(before, config.id));
                                }
                            }
                        }
                    },
                }
            },
        }
    }
}

/// Registered, or among the first `k` given.
pub open spec fn among(
    registry: Seq<ConfigView>,
    given: Seq<ConfigView>,
    k: int,
    c: ConfigView,
) -> bool {
    registry.contains(c) || exists|i: int| 0 <= i < k && #[trigger] given[i] == c
}

proof fn lemma_merged_from(registry: Seq<ConfigView>, given: Seq<ConfigView>, n: nat)
    requires
        n <= given.len(),
        merged(registry, given, n) is Ok,
    ensures
        forall|c: ConfigView| #[trigger]
            merged(registry, given, n)->Ok_0.contains(c) ==> among(registry, given, n as int, c),
    decreases n,
{
    let all = merged(registry, given, n)->Ok_0;
    if n > 0 {
        lemma_merged_from(registry, given, (n - 1) as nat);
        let before = merged(registry, given, (n - 1) as nat)->Ok_0;
        assert forall|c: ConfigView| #[trigger] all.contains(c) implies among(
            registry,
            given,
            n as int,
            c,
        ) by {
            let i = choose|i: int| 0 <= i < all.len() && all[i] == c;
            if i < before.len() {
                assert(before[i] == c);
                assert(before.contains(c));
                assert(among(registry, given, n - 1, c));
                if !registry.contains(c) {
                    let j = choose|j: int| 0 <= j < n - 1 && #[trigger] given[j] == c;
                    assert(given[j] == c);
                }
            } else {
                assert(given[n - 1] == c);
            }
        }
    }
}

/// Merging adds nothing but what was given.
pub proof fn law_merge_adds_only_the_given(
    registry: Seq<ConfigView>,
    given: Seq<ConfigView>,
    n: nat,
    c: ConfigView,
)
    requires
        n <= given.len(),
        merged(registry, given, n) matches Ok(all) && all.contains(c),
    ensures
        among(registry, given, n as int, c),
{
    lemma_merged_from(registry, given, n);
}

/// The magic of a catalog file is the text `CAT0`, and its version is 2.
pub proof fn law_catalog_magic()
    ensures
        magic().len() == 4,
        magic()[0] == 'C' as u32,
        magic()[1] == 'A' as u32,
        magic()[2] == 'T' as u32,
        magic()[3] == '0' as u32,
        VERSION == 2,
{
}

/// A catalog file that can be opened and whose body was parsed gives what was parsed, at
/// the log position of the file; any other gives an error.
pub proof fn law_catalog_file(
    bytes: Seq<u8>,
    parsed: std::result::Result<Seq<ConfigView>, Seq<char>>,
)
    ensures
        match (codec::opened(magic(), VERSION, bytes), parsed) {
            (Ok((lsn, _)), Ok(registry)) => decoded(bytes, parsed) matches Ok(got) && got.0
                == registry && got.1 == lsn,
            (Ok(_), Err(why)) => decoded(bytes, parsed) == Err::<(Seq<ConfigView>, u64), Seq<char>>(
                "catalog body: "@ + why,
            ),
            (Err(why), _) => decoded(bytes, parsed) == Err::<(Seq<ConfigView>, u64), Seq<char>>(
                "catalog: "@ + why,
            ),
        },
{
}

} // verus!
