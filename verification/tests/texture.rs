use renderer::texture::ImageTexture;

fn two_by_two() -> ImageTexture {
    ImageTexture::new(vec![1, 2, 3, 4, 5, 6, 7, 8, 9, 10, 11, 12], 2, 2)
}

#[test]
fn texel_reads_row_major() {
    let texture = two_by_two();
    assert_eq!(texture.texel(0, 0), (1, 2, 3));
    assert_eq!(texture.texel(1, 0), (4, 5, 6));
    assert_eq!(texture.texel(0, 1), (7, 8, 9));
    assert_eq!(texture.texel(1, 1), (10, 11, 12));
}

#[test]
fn neighbours_are_held_at_the_border() {
    let texture = ImageTexture::new(vec![0; 4 * 3 * 3], 4, 3);
    assert_eq!(texture.get_width(), 4);
    assert_eq!(texture.get_height(), 3);
    assert_eq!(texture.next_column(0), 1);
    assert_eq!(texture.next_column(2), 3);
    assert_eq!(texture.next_column(3), 3);
    assert_eq!(texture.next_row(1), 2);
    assert_eq!(texture.next_row(2), 2);
}

#[test]
fn single_texel_image() {
    let texture = ImageTexture::new(vec![200, 100, 50], 1, 1);
    assert_eq!(texture.next_column(0), 0);
    assert_eq!(texture.next_row(0), 0);
    assert_eq!(texture.texel(0, 0), (200, 100, 50));
}

#[test]
fn texel_address_runs_on_into_the_next_row() {
    let texture = two_by_two();
    assert_eq!(texture.texel(2, 0), texture.texel(0, 1));
    assert!(texture.contains_texel(3, 0));
    assert!(!texture.contains_texel(0, 2));
    assert!(!texture.contains_texel(usize::MAX, usize::MAX));
}
