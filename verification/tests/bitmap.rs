use simplefs::allocation::{Bitmap, State};

#[test]
fn can_read_and_write_values_to_bitmap() {
    let mut bmp = Bitmap::new();

    bmp.set_reserved(2);

    assert_eq!(bmp.get(0), State::Free);
    assert_eq!(bmp.get(2), State::Used);
}

#[test]
fn can_set_values_at_ends_of_bitmap() {
    let mut bmp = Bitmap::new();

    bmp.set_reserved(0);
    bmp.set_reserved(4095);

    assert_eq!(bmp.get(0), State::Used);
    assert_eq!(bmp.get(4095), State::Used);
}

#[test]
fn can_toggle_block_between_free_and_used() {
    let mut bmp = Bitmap::new();

    bmp.set_reserved(10);
    assert_eq!(bmp.get(10), State::Used);

    bmp.set_free(10);
    assert_eq!(bmp.get(10), State::Free);
}
