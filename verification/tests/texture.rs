use gouache::texture::flip;

#[test]
fn rows_come_out_in_reverse_order() {
    let pixels = [1, 2, 3, 4, 5, 6];
    assert_eq!(flip(&pixels, 2), vec![5, 6, 3, 4, 1, 2]);
    assert_eq!(flip(&pixels, 3), vec![4, 5, 6, 1, 2, 3]);
    assert_eq!(flip(&pixels, 1), vec![6, 5, 4, 3, 2, 1]);
}

#[test]
fn one_row_stays_as_it_is() {
    let pixels = ['a', 'b', 'c'];
    assert_eq!(flip(&pixels, 3), vec!['a', 'b', 'c']);
    assert_eq!(flip(&pixels, 7), vec!['a', 'b', 'c']);
    assert_eq!(flip(&pixels, u32::MAX), vec!['a', 'b', 'c']);
}

#[test]
fn a_short_first_row_comes_last() {
    let pixels = [1, 2, 3, 4, 5, 6, 7];
    assert_eq!(flip(&pixels, 3), vec![5, 6, 7, 2, 3, 4, 1]);
}

#[test]
fn no_pixels_flip_to_no_pixels() {
    let pixels: [u8; 0] = [];
    assert_eq!(flip(&pixels, 4), Vec::<u8>::new());
}

#[test]
fn flipping_twice_gives_the_image_back() {
    let pixels: Vec<[u16; 4]> = (0..12u16).map(|i| [i, i + 1, i + 2, i + 3]).collect();
    let once = flip(&pixels, 4);
    assert_eq!(once[0], [8, 9, 10, 11]);
    assert_eq!(flip(&once, 4), pixels);
}
