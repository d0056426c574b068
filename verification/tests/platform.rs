//! The interrupt flag.

use flats::platform::signal::{clear, raise, take, Flag};

#[test]
fn the_flag_is_consumed_exactly_once() {
    let mut flag = Flag { pending: false };
    clear(&mut flag);
    assert!(!take(&mut flag), "nothing pending to start with");

    raise(&mut flag);
    assert!(take(&mut flag), "the pending interrupt is reported");
    assert!(
        !take(&mut flag),
        "and only once — two consumers must not both see one Ctrl-C"
    );

    raise(&mut flag);
    clear(&mut flag);
    assert!(!take(&mut flag), "clear discards a pending interrupt");
}
