//! What a search gives, in terms of the numbers that scores stand for.

use vstd::prelude::*;
use vstd::set_lib::*;

use crate::codec;
use crate::float;
use crate::index;
use crate::index::SearchResult;
use crate::number;

verus! {

/// The rows that a search looks at: the committed ones without a tombstone.
pub open spec fn searched(image: Seq<u8>, n: nat) -> Set<int> {
    set_int_range(0, n as int).filter(|id: int| !index::deleted_in(image, id))
}

/// The rows that were found.
pub open spec fn found(hits: Seq<SearchResult>) -> Set<int> {
    Seq::new(hits.len(), |i: int| hits[i].id.0 as int).to_set()
}

proof fn lemma_searched(image: Seq<u8>, n: nat)
    ensures
        searched(image, n).finite(),
        searched(image, n).len() == index::candidates(image, n),
    decreases n,
{
    lemma_int_range(0, n as int);
    if n == 0 {
        assert(searched(image, 0) =~= Set::<int>::empty());
    } else {
        let m = (n - 1) as nat;
        lemma_searched(image, m);
        lemma_int_range(0, m as int);
        if index::deleted_in(image, n - 1) {
            assert(searched(image, n) =~= searched(image, m));
        } else {
            assert(searched(image, n) =~= searched(image, m).insert(n - 1));
        }
    }
}

/// A search finds rows without a tombstone, each once and with its own score, and never
/// more than `k`. If it finds fewer, it has found every row there is.
pub proof fn law_search_finds_rows(
    image: Seq<u8>,
    scores: Seq<u32>,
    n: nat,
    k: int,
    hits: Seq<SearchResult>,
)
    requires
        0 < k,
        index::is_top(image, scores, n, k, hits),
    ensures
        hits.len() <= k,
        forall|i: int|
            0 <= i < hits.len() ==> {
                let hit = #[trigger] hits[i];
                &&& hit.id.0 < n
                &&& !index::deleted_in(image, hit.id.0 as int)
                &&& hit.score == scores[hit.id.0 as int]
            },
        forall|i: int, j: int|
            0 <= i < j < hits.len() ==> (#[trigger] hits[i]).id.0 != (#[trigger] hits[j]).id.0,
        hits.len() < k ==> forall|id: int|
            0 <= id < n && !index::deleted_in(image, id) ==> #[trigger] found(hits).contains(id),
{
    lemma_searched(image, n);
    lemma_int_range(0, n as int);
    let ids = Seq::new(hits.len(), |i: int| hits[i].id.0 as int);
    assert forall|i: int, j: int| 0 <= i < j < hits.len() implies (#[trigger] hits[i]).id.0 != (
    #[trigger] hits[j]).id.0 by {
        assert(hits[i].id != hits[j].id);
    }
    assert(ids.no_duplicates()) by {
        assert forall|i: int, j: int| 0 <= i < ids.len() && 0 <= j < ids.len() && i != j implies ids[i]
            != ids[j] by {
            if i < j {
                assert(hits[i].id.0 != hits[j].id.0);
            } else {
                assert(hits[j].id.0 != hits[i].id.0);
            }
        }
    }
    ids.unique_seq_to_set();
    assert(found(hits).subset_of(searched(image, n))) by {
        assert forall|id: int| found(hits).contains(id) implies searched(image, n).contains(id) by {
            let i = choose|i: int| 0 <= i < ids.len() && ids[i] == id;
            assert(hits[i].id.0 == id);
        }
    }
    if hits.len() < k {
        lemma_subset_equality(found(hits), searched(image, n));
        assert forall|id: int| 0 <= id < n && !index::deleted_in(image, id) implies #[trigger] found(
            hits,
        ).contains(id) by {
            assert(searched(image, n).contains(id));
        }
    }
}

/// A search gives the best rows, best first: when every score is a number, no hit has a
/// greater number before a later one than that one's own, and no row that was left out
/// has a greater number than any hit.
pub proof fn law_search_gives_the_best(
    image: Seq<u8>,
    scores: Seq<u32>,
    n: nat,
    k: int,
    hits: Seq<SearchResult>,
)
    requires
        0 < k,
        index::is_top(image, scores, n, k, hits),
        forall|id: int|
            0 <= id < n && !index::deleted_in(image, id) ==> !number::no_number32(
                #[trigger] scores[id],
            ),
    ensures
        forall|i: int, j: int|
            0 <= i < j < hits.len() ==> number::number32((#[trigger] hits[i]).score)
                >= number::number32((#[trigger] hits[j]).score),
        forall|id: int, i: int|
            0 <= id < n && !index::deleted_in(image, id) && !#[trigger] found(hits).contains(id)
                && 0 <= i < hits.len() ==> number::number32(scores[id]) <= number::number32(
                (#[trigger] hits[i]).score,
            ),
{
    law_search_finds_rows(image, scores, n, k, hits);
    assert forall|i: int, j: int| 0 <= i < j < hits.len() implies number::number32(
        (#[trigger] hits[i]).score,
    ) >= number::number32((#[trigger] hits[j]).score) by {
        let _ = scores[hits[i].id.0 as int];
        let _ = scores[hits[j].id.0 as int];
        assert(float::rank32(hits[i].score) >= float::rank32(hits[j].score));
        number::law_order_is_numeric32(hits[i].score, hits[j].score);
    }
    let ids = Seq::new(hits.len(), |i: int| hits[i].id.0 as int);
    assert forall|id: int, i: int|
        0 <= id < n && !index::deleted_in(image, id) && !#[trigger] found(hits).contains(id) && 0
            <= i < hits.len() implies number::number32(scores[id]) <= number::number32(
        (#[trigger] hits[i]).score,
    ) by {
        let last = hits.last();
        assert(hits[hits.len() - 1] == last);
        let _ = scores[last.id.0 as int];
        let _ = scores[id];
        if index::chosen(hits, id) {
            let j = choose|j: int| 0 <= j < hits.len() && (#[trigger] hits[j]).id.0 == id;
            assert(ids[j] == id);
            assert(found(hits).contains(id));
        }
        number::law_order_is_numeric32(scores[id], last.score);
        number::law_order_is_numeric32(last.score, scores[id]);
        assert(index::number(scores[id]) == float::rank32(float::key32(scores[id])));
        assert(index::number(last.score) == float::rank32(float::key32(last.score)));
        assert(number::number32(scores[id]) <= number::number32(last.score));
        if i < hits.len() - 1 {
            assert(number::number32(hits[i].score) >= number::number32(
                hits[hits.len() - 1].score,
            ));
        }
    }
}

/// A score comes in for another exactly if both are numbers and it is the greater one.
pub proof fn law_greater_is_numeric(a: u32, b: u32)
    ensures
        index::greater(a, b) <==> !number::no_number32(a) && !number::no_number32(b)
            && number::number32(a) > number::number32(b),
{
    number::law_order_is_numeric32(a, b);
    number::law_order_is_numeric32(b, a);
    assert(index::number(a) == float::rank32(float::key32(a)));
    assert(index::number(b) == float::rank32(float::key32(b)));
}

/// Scores that are no numbers: a search goes by the order of patterns among its hits.
/// Once there are `k`, a score that is no number neither comes in nor goes.
pub proof fn law_no_number_stays_put(
    image: Seq<u8>,
    scores: Seq<u32>,
    n: nat,
    k: int,
)
    requires
        0 < k,
        0 < n,
        !index::deleted_in(image, n - 1),
        index::top_scores(image, scores, (n - 1) as nat, k).len() >= k,
    ensures
        number::no_number32(scores[n - 1]) || number::no_number32(
            index::top_scores(image, scores, (n - 1) as nat, k).last(),
        ) ==> index::top_scores(image, scores, n, k) == index::top_scores(
            image,
            scores,
            (n - 1) as nat,
            k,
        ),
{
    law_greater_is_numeric(
        scores[n - 1],
        index::top_scores(image, scores, (n - 1) as nat, k).last(),
    );
}

/// Which byte and bit is the tombstone of a row: eight rows share a byte, the first in
/// its lowest bit, and the bytes start behind two pages.
pub proof fn law_tombstone_bits(image: Seq<u8>, id: int)
    requires
        0 <= id,
    ensures
        ({
            let byte = image[8192 + id / 8] as int;
            let unit = if id % 8 == 0 {
                1int
            } else if id % 8 == 1 {
                2
            } else if id % 8 == 2 {
                4
            } else if id % 8 == 3 {
                8
            } else if id % 8 == 4 {
                16
            } else if id % 8 == 5 {
                32
            } else if id % 8 == 6 {
                64
            } else {
                128
            };
            index::deleted_in(image, id) <==> byte / unit % 2 == 1
        }),
{
    let b = image[8192 + id / 8];
    assert((b >> 0u8) & 1u8 == b / 1 % 2 && (b >> 1u8) & 1u8 == b / 2 % 2 && (b >> 2u8) & 1u8 == b
        / 4 % 2 && (b >> 3u8) & 1u8 == b / 8 % 2 && (b >> 4u8) & 1u8 == b / 16 % 2 && (b >> 5u8)
        & 1u8 == b / 32 % 2 && (b >> 6u8) & 1u8 == b / 64 % 2 && (b >> 7u8) & 1u8 == b / 128 % 2)
        by (bit_vector);
}

/// The vectors start at the first page behind the tombstones, and stand one behind the
/// other without a gap.
pub proof fn law_layout(dim: int, capacity: int, ordinal: int)
    requires
        1 <= dim,
        0 <= ordinal < capacity,
    ensures
        ({
            let start = index::vector_at(dim, capacity, 0);
            &&& start % 4096 == 0
            &&& start * 8 >= 8192 * 8 + capacity
            &&& (start - 4096) * 8 < 8192 * 8 + capacity
            &&& index::vector_at(dim, capacity, ordinal + 1) == index::vector_at(
                dim,
                capacity,
                ordinal,
            ) + 4 * dim
            &&& index::image_len(dim, capacity) == start + 4 * dim * capacity
            &&& index::vector_at(dim, capacity, capacity) == index::image_len(dim, capacity)
        }),
{
    assert((ordinal + 1) * dim * 4 == ordinal * dim * 4 + 4 * dim) by (nonlinear_arith);
    assert(0 * dim * 4 == 0) by (nonlinear_arith);
    assert(dim * capacity * 4 == 4 * dim * capacity) by (nonlinear_arith);
    assert(capacity * dim * 4 == dim * capacity * 4) by (nonlinear_arith);
    let bytes = index::ceil_div(capacity, 8);
    assert(8 * bytes >= capacity && 8 * (bytes - 1) < capacity);
    let pages = index::ceil_div(8192 + bytes, 4096);
    assert(4096 * pages >= 8192 + bytes && 4096 * (pages - 1) < 8192 + bytes);
}

/// The two header slots are at the start of the first two pages.
pub proof fn law_slot_places()
    ensures
        index::slot_at(0) == 0,
        index::slot_at(1) == 4096,
{
}

/// Writing bytes into an image changes those and no others.
pub proof fn law_spliced(image: Seq<u8>, at: int, bytes: Seq<u8>, i: int)
    requires
        0 <= at,
        at + bytes.len() <= image.len(),
        0 <= i < image.len(),
    ensures
        index::spliced(image, at, bytes).len() == image.len(),
        index::spliced(image, at, bytes).subrange(at, at + bytes.len()) == bytes,
        i < at || i >= at + bytes.len() ==> index::spliced(image, at, bytes)[i] == image[i],
{
    assert(index::spliced(image, at, bytes).subrange(at, at + bytes.len()) =~= bytes);
}

/// A vector is written number by number, each in four bytes, the least significant first.
pub proof fn law_vector_bytes(vector: Seq<u32>, i: int)
    requires
        0 <= i < vector.len(),
    ensures
        index::vector_bytes(vector).len() == 4 * vector.len(),
        index::vector_bytes(vector).subrange(4 * i, 4 * i + 4) == codec::le32(vector[i]),
    decreases vector.len(),
{
    let d = vector.drop_last();
    codec::lemma_le32(vector.last());
    lemma_vector_len(d);
    if i < d.len() {
        law_vector_bytes(d, i);
        assert(index::vector_bytes(vector).subrange(4 * i, 4 * i + 4) =~= index::vector_bytes(
            d,
        ).subrange(4 * i, 4 * i + 4));
    } else {
        assert(index::vector_bytes(vector).subrange(4 * i, 4 * i + 4) =~= codec::le32(
            vector.last(),
        ));
    }
}

proof fn lemma_vector_len(vector: Seq<u32>)
    ensures
        index::vector_bytes(vector).len() == 4 * vector.len(),
    decreases vector.len(),
{
    if vector.len() > 0 {
        codec::lemma_le32(vector.last());
        lemma_vector_len(vector.drop_last());
    }
}

/// A vector is read from the same places.
pub proof fn law_vector_read(index: index::FlatView, image: Seq<u8>, ordinal: int, i: int)
    requires
        0 <= i < index.dim,
    ensures
        index.vector(image, ordinal).len() == index.dim,
        ({
            let at = index::vector_at(index.dim, index.capacity, ordinal) + 4 * i;
            index.vector(image, ordinal)[i] == codec::from_le32(image.subrange(at, at + 4))
        }),
{
}

/// Vectors are equal exactly if they are equally long and stand for the same numbers.
pub proof fn law_vector_equality(a: Seq<u32>, b: Seq<u32>)
    ensures
        float::equal_vectors(a, b) <==> a.len() == b.len() && forall|i: int|
            0 <= i < a.len() ==> !number::no_number32(#[trigger] a[i]) && !number::no_number32(b[i])
                && number::number32(a[i]) == number::number32(b[i]),
{
    if a.len() == b.len() {
        assert forall|i: int| 0 <= i < a.len() implies (float::equal32(#[trigger] a[i], b[i])
            <==> !number::no_number32(a[i]) && !number::no_number32(b[i]) && number::number32(a[i])
            == number::number32(b[i])) by {
            number::law_order_is_numeric32(a[i], b[i]);
        }
    }
}

/// Hits compare as their scores do: equal if these are the same number, and in the order
/// of numbers.
pub proof fn law_hit_comparison(a: SearchResult, b: SearchResult)
    ensures
        vstd::std_specs::cmp::PartialEqSpec::eq_spec(&a, &b) <==> !number::no_number32(a.score)
            && !number::no_number32(b.score) && number::number32(a.score) == number::number32(
            b.score,
        ),
{
    number::law_order_is_numeric32(a.score, b.score);
}

/// Of two hits whose scores are numbers, the one of the lesser number is less, hits of one
/// score are equal, and turning the two round turns the answer round.
pub proof fn law_hit_order(a: SearchResult, b: SearchResult)
    requires
        !number::no_number32(a.score),
        !number::no_number32(b.score),
    ensures
        number::number32(a.score) < number::number32(b.score) ==> hit_order(a, b) == -1,
        number::number32(a.score) > number::number32(b.score) ==> hit_order(a, b) == 1,
        a.score == b.score ==> hit_order(a, b) == 0,
        hit_order(a, b) == -hit_order(b, a),
{
    number::law_order_is_numeric32(a.score, b.score);
    number::law_order_is_numeric32(b.score, a.score);
}

/// How two hits compare, as -1, 0 or 1.
pub open spec fn hit_order(a: SearchResult, b: SearchResult) -> int {
    match vstd::std_specs::cmp::PartialOrdSpec::partial_cmp_spec(&a, &b) {
        Some(core::cmp::Ordering::Less) => -1,
        Some(core::cmp::Ordering::Greater) => 1,
        Some(core::cmp::Ordering::Equal) => 0,
        None => 2,
    }
}

} // verus!
