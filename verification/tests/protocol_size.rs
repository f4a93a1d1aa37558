use core::mem::size_of;
use dabqlite::{FindPage, Input, Output, RangePage, ValueWindow};

#[test]
fn the_protocol_types_stay_small_enough_to_return_by_value() {
    let window = size_of::<ValueWindow>();
    let pages = size_of::<RangePage>().max(size_of::<FindPage>());
    assert!(
        window <= pages,
        "a read window ({window} bytes) is now larger than a result page ({pages})"
    );
    assert!(size_of::<Output>() <= 1024, "{}", size_of::<Output>());
    assert!(size_of::<Input>() <= 128, "{}", size_of::<Input>());
    assert_eq!(size_of::<Output>(), pages, "the largest variant should be a result page");
}
