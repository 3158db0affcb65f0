//! The segmented vector font: each printable ASCII character is drawn as a
//! set of cells taken from a fixed table of fourteen segment shapes.
use vstd::prelude::*;

verus! {

/// The number of segment shapes in the font.
pub const SEGMENT_COUNT: usize = 14;

/// Whether `c` is a printable ASCII character other than space.
pub open spec fn is_printable(c: char) -> bool {
    '!' <= c <= '~'
}

/// The segments of each character, in increasing order.
pub open spec fn glyph_table(c: char) -> Seq<usize> {
    match c {
        '!' => seq![3usize, 9, 11, 13],
        '"' => seq![5usize, 9],
        '#' => seq![1usize, 2, 3, 6, 7, 9, 12],
        '$' => seq![0usize, 2, 3, 5, 6, 7, 9, 12],
        '%' => seq![2usize, 5, 10, 11],
        '&' => seq![0usize, 3, 4, 6, 8, 10, 13],
        '\'' => seq![9usize],
        '(' => seq![10usize, 13],
        ')' => seq![8usize, 11],
        '*' => seq![8usize, 9, 10, 11, 12, 13],
        '+' => seq![6usize, 7, 9, 12],
        ',' => seq![11usize],
        '-' => seq![6usize, 7],
        '.' => seq![4usize],
        '/' => seq![10usize, 11],
        '0' => seq![0usize, 1, 2, 3, 4, 5, 10, 11],
        '1' => seq![1usize, 2, 10],
        '2' => seq![0usize, 1, 3, 4, 6, 7],
        '3' => seq![0usize, 1, 2, 3, 7],
        '4' => seq![1usize, 2, 5, 6, 7],
        '5' => seq![0usize, 2, 3, 5, 6, 7],
        '6' => seq![0usize, 2, 3, 4, 5, 6, 7],
        '7' => seq![0usize, 10, 12],
        '8' => seq![0usize, 1, 2, 3, 4, 5, 6, 7],
        '9' => seq![0usize, 1, 2, 5, 6, 7],
        ':' => seq![9usize, 13],
        ';' => seq![9usize, 11],
        '<' => seq![6usize, 10, 13],
        '=' => seq![3usize, 6, 7],
        '>' => seq![7usize, 8, 11],
        '?' => seq![0usize, 5, 10, 12],
        '@' => seq![0usize, 1, 2, 3, 4, 5, 8, 10, 11, 13],
        'A' => seq![0usize, 1, 2, 4, 5, 6, 7],
        'B' => seq![0usize, 1, 2, 3, 7, 9, 12],
        'C' => seq![0usize, 3, 4, 5],
        'D' => seq![0usize, 1, 2, 3, 9, 12],
        'E' => seq![0usize, 3, 4, 5, 6, 7],
        'F' => seq![0usize, 4, 5, 6, 7],
        'G' => seq![0usize, 2, 3, 4, 5, 7],
        'H' => seq![1usize, 2, 4, 5, 6, 7],
        'I' => seq![0usize, 3, 9, 12],
        'J' => seq![1usize, 2, 3, 4],
        'K' => seq![4usize, 5, 6, 10, 13],
        'L' => seq![3usize, 4, 5],
        'M' => seq![1usize, 2, 4, 5, 8, 10],
        'N' => seq![1usize, 2, 4, 5, 8, 13],
        'O' => seq![0usize, 1, 2, 3, 4, 5],
        'P' => seq![0usize, 1, 4, 5, 6, 7],
        'Q' => seq![0usize, 1, 2, 3, 4, 5, 13],
        'R' => seq![0usize, 1, 4, 5, 6, 7, 13],
        'S' => seq![0usize, 2, 3, 7, 8],
        'T' => seq![0usize, 9, 12],
        'U' => seq![1usize, 2, 3, 4, 5],
        'V' => seq![4usize, 5, 10, 11],
        'W' => seq![1usize, 2, 4, 5, 11, 13],
        'X' => seq![0usize, 3, 8, 10, 11, 13],
        'Y' => seq![0usize, 8, 10, 12],
        'Z' => seq![0usize, 3, 10, 11],
        '[' => seq![0usize, 3, 4, 5, 10, 13],
        '\\' => seq![8usize, 13],
        ']' => seq![0usize, 1, 2, 3, 8, 11],
        '^' => seq![8usize, 10],
        '_' => seq![3usize],
        '`' => seq![8usize],
        'a' => seq![2usize, 3, 4, 6, 7, 13],
        'b' => seq![3usize, 4, 5, 6, 13],
        'c' => seq![3usize, 4, 6, 7],
        'd' => seq![1usize, 2, 3, 7, 11],
        'e' => seq![3usize, 4, 6, 11],
        'f' => seq![3usize, 6, 7, 10, 12],
        'g' => seq![2usize, 3, 4, 7, 12],
        'h' => seq![3usize, 7, 12],
        'i' => seq![3usize, 6, 12],
        'j' => seq![2usize, 3, 10],
        'k' => seq![4usize, 5, 7, 11, 13],
        'l' => seq![4usize, 5, 11],
        'm' => seq![2usize, 4, 6, 7, 12],
        'n' => seq![2usize, 4, 6, 7],
        'o' => seq![2usize, 3, 4, 6, 7],
        'p' => seq![3usize, 4, 6, 12],
        'q' => seq![2usize, 3, 7, 12],
        'r' => seq![4usize, 6, 7],
        's' => seq![3usize, 7, 13],
        't' => seq![3usize, 4, 5, 6],
        'u' => seq![2usize, 3, 4],
        'v' => seq![4usize, 7, 11],
        'w' => seq![2usize, 4, 11, 13],
        'x' => seq![6usize, 7, 11, 13],
        'y' => seq![2usize, 3, 6, 13],
        'z' => seq![3usize, 6, 11],
        '{' => seq![0usize, 3, 6, 8, 11],
        '|' => seq![9usize, 12],
        '}' => seq![0usize, 3, 7, 10, 13],
        '~' => seq![0usize],
        _ => Seq::empty(),
    }
}

/// The segments that draw `c`, as indices into the segment table, in
/// increasing order. Every printable ASCII character other than space has at
/// least one segment; every other character has none.
pub fn glyph_segments(c: char) -> (r: Vec<usize>)
    ensures
        r@ == glyph_table(c),
        forall|j: int| 0 <= j < r@.len() ==> #[trigger] r@[j] < SEGMENT_COUNT,
        forall|i: int, j: int| 0 <= i < j < r@.len() ==> r@[i] < r@[j],
        r@.len() > 0 <==> is_printable(c),
{
    match c {
        '!' => vec![3usize, 9, 11, 13],
        '"' => vec![5usize, 9],
        '#' => vec![1usize, 2, 3, 6, 7, 9, 12],
        '$' => vec![0usize, 2, 3, 5, 6, 7, 9, 12],
        '%' => vec![2usize, 5, 10, 11],
        '&' => vec![0usize, 3, 4, 6, 8, 10, 13],
        '\'' => vec![9usize],
        '(' => vec![10usize, 13],
        ')' => vec![8usize, 11],
        '*' => vec![8usize, 9, 10, 11, 12, 13],
        '+' => vec![6usize, 7, 9, 12],
        ',' => vec![11usize],
        '-' => vec![6usize, 7],
        '.' => vec![4usize],
        '/' => vec![10usize, 11],
        '0' => vec![0usize, 1, 2, 3, 4, 5, 10, 11],
        '1' => vec![1usize, 2, 10],
        '2' => vec![0usize, 1, 3, 4, 6, 7],
        '3' => vec![0usize, 1, 2, 3, 7],
        '4' => vec![1usize, 2, 5, 6, 7],
        '5' => vec![0usize, 2, 3, 5, 6, 7],
        '6' => vec![0usize, 2, 3, 4, 5, 6, 7],
        '7' => vec![0usize, 10, 12],
        '8' => vec![0usize, 1, 2, 3, 4, 5, 6, 7],
        '9' => vec![0usize, 1, 2, 5, 6, 7],
        ':' => vec![9usize, 13],
        ';' => vec![9usize, 11],
        '<' => vec![6usize, 10, 13],
        '=' => vec![3usize, 6, 7],
        '>' => vec![7usize, 8, 11],
        '?' => vec![0usize, 5, 10, 12],
        '@' => vec![0usize, 1, 2, 3, 4, 5, 8, 10, 11, 13],
        'A' => vec![0usize, 1, 2, 4, 5, 6, 7],
        'B' => vec![0usize, 1, 2, 3, 7, 9, 12],
        'C' => vec![0usize, 3, 4, 5],
        'D' => vec![0usize, 1, 2, 3, 9, 12],
        'E' => vec![0usize, 3, 4, 5, 6, 7],
        'F' => vec![0usize, 4, 5, 6, 7],
        'G' => vec![0usize, 2, 3, 4, 5, 7],
        'H' => vec![1usize, 2, 4, 5, 6, 7],
        'I' => vec![0usize, 3, 9, 12],
        'J' => vec![1usize, 2, 3, 4],
        'K' => vec![4usize, 5, 6, 10, 13],
        'L' => vec![3usize, 4, 5],
        'M' => vec![1usize, 2, 4, 5, 8, 10],
        'N' => vec![1usize, 2, 4, 5, 8, 13],
        'O' => vec![0usize, 1, 2, 3, 4, 5],
        'P' => vec![0usize, 1, 4, 5, 6, 7],
        'Q' => vec![0usize, 1, 2, 3, 4, 5, 13],
        'R' => vec![0usize, 1, 4, 5, 6, 7, 13],
        'S' => vec![0usize, 2, 3, 7, 8],
        'T' => vec![0usize, 9, 12],
        'U' => vec![1usize, 2, 3, 4, 5],
        'V' => vec![4usize, 5, 10, 11],
        'W' => vec![1usize, 2, 4, 5, 11, 13],
        'X' => vec![0usize, 3, 8, 10, 11, 13],
        'Y' => vec![0usize, 8, 10, 12],
        'Z' => vec![0usize, 3, 10, 11],
        '[' => vec![0usize, 3, 4, 5, 10, 13],
        '\\' => vec![8usize, 13],
        ']' => vec![0usize, 1, 2, 3, 8, 11],
        '^' => vec![8usize, 10],
        '_' => vec![3usize],
        '`' => vec![8usize],
        'a' => vec![2usize, 3, 4, 6, 7, 13],
        'b' => vec![3usize, 4, 5, 6, 13],
        'c' => vec![3usize, 4, 6, 7],
        'd' => vec![1usize, 2, 3, 7, 11],
        'e' => vec![3usize, 4, 6, 11],
        'f' => vec![3usize, 6, 7, 10, 12],
        'g' => vec![2usize, 3, 4, 7, 12],
        'h' => vec![3usize, 7, 12],
        'i' => vec![3usize, 6, 12],
        'j' => vec![2usize, 3, 10],
        'k' => vec![4usize, 5, 7, 11, 13],
        'l' => vec![4usize, 5, 11],
        'm' => vec![2usize, 4, 6, 7, 12],
        'n' => vec![2usize, 4, 6, 7],
        'o' => vec![2usize, 3, 4, 6, 7],
        'p' => vec![3usize, 4, 6, 12],
        'q' => vec![2usize, 3, 7, 12],
        'r' => vec![4usize, 6, 7],
        's' => vec![3usize, 7, 13],
        't' => vec![3usize, 4, 5, 6],
        'u' => vec![2usize, 3, 4],
        'v' => vec![4usize, 7, 11],
        'w' => vec![2usize, 4, 11, 13],
        'x' => vec![6usize, 7, 11, 13],
        'y' => vec![2usize, 3, 6, 13],
        'z' => vec![3usize, 6, 11],
        '{' => vec![0usize, 3, 6, 8, 11],
        '|' => vec![9usize, 12],
        '}' => vec![0usize, 3, 7, 10, 13],
        '~' => vec![0usize],
        _ => Vec::new(),
    }
}

} // verus!
