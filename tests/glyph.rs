use mray::glyph::{glyph_segments, SEGMENT_COUNT};

#[test]
fn letters_use_their_segments() {
    assert_eq!(glyph_segments('A'), vec![0, 1, 2, 4, 5, 6, 7]);
    assert_eq!(glyph_segments('8'), vec![0, 1, 2, 3, 4, 5, 6, 7]);
    assert_eq!(glyph_segments('\\'), vec![8, 13]);
    assert_eq!(glyph_segments('\''), vec![9]);
    assert_eq!(glyph_segments('~'), vec![0]);
}

#[test]
fn non_printable_characters_have_no_segments() {
    assert!(glyph_segments(' ').is_empty());
    assert!(glyph_segments('\n').is_empty());
    assert!(glyph_segments('\u{7f}').is_empty());
    assert!(glyph_segments('é').is_empty());
}

#[test]
fn every_printable_character_has_valid_segments() {
    for b in 0x21u8..0x7f {
        let s = glyph_segments(b as char);
        assert!(!s.is_empty());
        assert!(s.iter().all(|i| *i < SEGMENT_COUNT));
        assert!(s.windows(2).all(|w| w[0] < w[1]));
    }
}

#[test]
fn glyph_of_eight_has_eight_segments() {
    assert_eq!(glyph_segments('8').len(), 8);
    assert_eq!(glyph_segments('i'), vec![3, 6, 12]);
}
