//! The text form of graphic primitives.
//!
//! A line is a sequence of tokens separated by white space: a tag, then the
//! colour channels, then the coordinates `x1 y1 x2 y2 ...`. Tag `l` or `L` is a
//! polyline with one RGBA colour, `p` a fill-only polygon with one RGBA fill
//! colour (its border is transparent), and `P` a polygon with a border colour
//! followed by a fill colour (eight channels). Numbers stay text here: the
//! caller converts each token.
use vstd::prelude::*;
use vstd::string::StrSliceExecFns;
use vstd::string::StringExecFns;

verus! {

/// Unicode `White_Space`, the characters that separate tokens.
pub open spec fn is_space(c: char) -> bool {
    let u = c as u32;
    (0x9 <= u <= 0xD) || u == 0x20 || u == 0x85 || u == 0xA0 || u == 0x1680 || (0x2000 <= u
        <= 0x200A) || u == 0x2028 || u == 0x2029 || u == 0x202F || u == 0x205F || u == 0x3000
}

/// Whether `c` separates tokens.
pub fn is_space_char(c: char) -> (r: bool)
    ensures
        r == is_space(c),
{
    let u = c as u32;
    (0x9 <= u && u <= 0xD) || u == 0x20 || u == 0x85 || u == 0xA0 || u == 0x1680 || (0x2000 <= u
        && u <= 0x200A) || u == 0x2028 || u == 0x2029 || u == 0x202F || u == 0x205F || u == 0x3000
}

/// The tokens completed so far in `s`, and the token still being read.
pub open spec fn split_state(s: Seq<char>) -> (Seq<Seq<char>>, Seq<char>)
    decreases s.len(),
{
    if s.len() == 0 {
        (Seq::empty(), Seq::empty())
    } else {
        let (done, cur) = split_state(s.drop_last());
        let c = s.last();
        if is_space(c) {
            if cur.len() > 0 { (done.push(cur), Seq::empty()) } else { (done, cur) }
        } else {
            (done, cur.push(c))
        }
    }
}

/// The maximal runs of non-space characters of `s`, in order.
pub open spec fn tokens(s: Seq<char>) -> Seq<Seq<char>> {
    let (done, cur) = split_state(s);
    if cur.len() > 0 { done.push(cur) } else { done }
}

pub open spec fn string_views(v: Seq<String>) -> Seq<Seq<char>> {
    v.map_values(|t: String| t@)
}

/// Splits `line` into its tokens.
pub fn split_tokens(line: &str) -> (r: Vec<String>)
    ensures
        string_views(r@) == tokens(line@),
{
    let n = line.unicode_len();
    let mut out: Vec<String> = Vec::new();
    let mut start: usize = 0;
    let mut i: usize = 0;
    proof {
        assert(line@.take(0) =~= Seq::<char>::empty());
        assert(string_views(out@) =~= Seq::empty());
        assert(line@.subrange(0, 0) =~= Seq::<char>::empty());
    }
    while i < n
        invariant
            n == line@.len(),
            start <= i <= n,
            string_views(out@) == split_state(line@.take(i as int)).0,
            line@.subrange(start as int, i as int) == split_state(line@.take(i as int)).1,
        decreases n - i,
    {
        let c = line.get_char(i);
        let ghost before = out@;
        proof {
            assert(line@.take(i + 1).drop_last() =~= line@.take(i as int));
            assert(line@.take(i + 1).last() == c);
        }
        if is_space_char(c) {
            if start < i {
                let t = String::from_str(line.substring_char(start, i));
                out.push(t);
                proof {
                    assert(string_views(out@) =~= string_views(before).push(t@));
                }
            }
            start = i + 1;
            proof {
                assert(line@.subrange(start as int, i + 1) =~= Seq::<char>::empty());
            }
        } else {
            proof {
                assert(line@.subrange(start as int, i + 1) =~= line@.subrange(start as int, i as int).push(c));
            }
        }
        i = i + 1;
    }
    proof {
        assert(line@.take(n as int) =~= line@);
    }
    if start < n {
        let ghost before = out@;
        let t = String::from_str(line.substring_char(start, n));
        out.push(t);
        proof {
            assert(string_views(out@) =~= string_views(before).push(t@));
        }
    }
    out
}

/// The kind of primitive that a tag selects.
#[derive(Clone, Copy, Debug, PartialEq, Eq, Structural)]
pub enum PrimitiveKind {
    /// `l` or `L`: a polyline with one RGBA colour.
    Lines,
    /// `p`: a polygon with one RGBA fill colour and no border.
    Fill,
    /// `P`: a polygon with an RGBA border colour, then an RGBA fill colour.
    Bordered,
}

/// Why a line is not a primitive.
#[derive(Clone, Copy, Debug, PartialEq, Eq, Structural)]
pub enum ParseError {
    /// The line holds no token.
    EmptyLine,
    /// The first token is not a known tag.
    UnknownTag,
    /// Fewer colour channels than the tag needs.
    MissingColor,
    /// The coordinates do not come in pairs.
    OddCoordinates,
}

/// A parsed line, its numbers still as text.
pub struct PrimitiveText {
    pub kind: PrimitiveKind,
    /// Four channels, or eight (border then fill) for [`PrimitiveKind::Bordered`].
    pub colors: Vec<String>,
    /// `x1 y1 x2 y2 ...`, an even number of tokens.
    pub coords: Vec<String>,
}

impl View for PrimitiveText {
    type V = (PrimitiveKind, Seq<Seq<char>>, Seq<Seq<char>>);

    open spec fn view(&self) -> (PrimitiveKind, Seq<Seq<char>>, Seq<Seq<char>>) {
        (self.kind, string_views(self.colors@), string_views(self.coords@))
    }
}

pub open spec fn tag_kind(t: Seq<char>) -> Option<PrimitiveKind> {
    if t == seq!['l'] || t == seq!['L'] {
        Some(PrimitiveKind::Lines)
    } else if t == seq!['p'] {
        Some(PrimitiveKind::Fill)
    } else if t == seq!['P'] {
        Some(PrimitiveKind::Bordered)
    } else {
        None
    }
}

pub open spec fn color_count(k: PrimitiveKind) -> int {
    match k {
        PrimitiveKind::Bordered => 8,
        _ => 4,
    }
}

/// What a line parses to.
pub open spec fn parse_spec(line: Seq<char>) -> Result<
    (PrimitiveKind, Seq<Seq<char>>, Seq<Seq<char>>),
    ParseError,
> {
    let t = tokens(line);
    if t.len() == 0 {
        Err(ParseError::EmptyLine)
    } else {
        match tag_kind(t[0]) {
            None => Err(ParseError::UnknownTag),
            Some(k) => {
                let c = color_count(k);
                if t.len() < 1 + c {
                    Err(ParseError::MissingColor)
                } else if (t.len() - 1 - c) % 2 != 0 {
                    Err(ParseError::OddCoordinates)
                } else {
                    Ok((k, t.subrange(1, 1 + c), t.subrange(1 + c, t.len() as int)))
                }
            },
        }
    }
}

fn tag_kind_exec(t: &String) -> (r: Option<PrimitiveKind>)
    ensures
        r == tag_kind(t@),
{
    let s = t.as_str();
    if s.unicode_len() != 1 {
        proof {
            assert(t@ != seq!['l'] && t@ != seq!['L'] && t@ != seq!['p'] && t@ != seq!['P']);
        }
        return None;
    }
    let c = s.get_char(0);
    proof {
        assert(t@ =~= seq![c]);
    }
    if c == 'l' || c == 'L' {
        Some(PrimitiveKind::Lines)
    } else if c == 'p' {
        Some(PrimitiveKind::Fill)
    } else if c == 'P' {
        Some(PrimitiveKind::Bordered)
    } else {
        proof {
            assert(seq![c] != seq!['l']) by { assert(seq![c][0] != seq!['l'][0]); }
            assert(seq![c] != seq!['L']) by { assert(seq![c][0] != seq!['L'][0]); }
            assert(seq![c] != seq!['p']) by { assert(seq![c][0] != seq!['p'][0]); }
            assert(seq![c] != seq!['P']) by { assert(seq![c][0] != seq!['P'][0]); }
        }
        None
    }
}

/// Moves `t[from..to]` out into a vector of its own.
fn take_range(t: &Vec<String>, from: usize, to: usize) -> (r: Vec<String>)
    requires
        from <= to <= t.len(),
    ensures
        string_views(r@) == string_views(t@).subrange(from as int, to as int),
{
    let mut out: Vec<String> = Vec::new();
    let mut i: usize = from;
    proof {
        assert(string_views(out@) =~= string_views(t@).subrange(from as int, from as int));
    }
    while i < to
        invariant
            from <= i <= to <= t.len(),
            string_views(out@) == string_views(t@).subrange(from as int, i as int),
        decreases to - i,
    {
        let ghost before = out@;
        let s = t[i].clone();
        out.push(s);
        i = i + 1;
        proof {
            assert(s@ == t@[i - 1]@);
            assert(string_views(out@) =~= string_views(before).push(s@));
            assert(string_views(t@).subrange(from as int, i as int) =~= string_views(t@).subrange(
                from as int,
                i - 1,
            ).push(string_views(t@)[i - 1]));
        }
    }
    out
}

/// Parses one line of the text form.
pub fn parse_primitive(line: &str) -> (r: Result<PrimitiveText, ParseError>)
    ensures
        match r {
            Ok(p) => parse_spec(line@) == Ok::<_, ParseError>(p@),
            Err(e) => parse_spec(line@) == Err::<(PrimitiveKind, Seq<Seq<char>>, Seq<Seq<char>>), _>(e),
        },
{
    let t = split_tokens(line);
    if t.len() == 0 {
        return Err(ParseError::EmptyLine);
    }
    proof {
        assert(string_views(t@)[0] == t@[0]@);
    }
    let kind = match tag_kind_exec(&t[0]) {
        None => {
            return Err(ParseError::UnknownTag);
        },
        Some(k) => k,
    };
    let c: usize = match kind {
        PrimitiveKind::Bordered => 8,
        _ => 4,
    };
    if t.len() < 1 + c {
        return Err(ParseError::MissingColor);
    }
    if (t.len() - 1 - c) % 2 != 0 {
        return Err(ParseError::OddCoordinates);
    }
    let colors = take_range(&t, 1, 1 + c);
    let coords = take_range(&t, 1 + c, t.len());
    Ok(PrimitiveText { kind, colors, coords })
}

/// What a sequence of lines parses to: every line's primitive, in order, or
/// the error of the first line that fails.
pub open spec fn parse_all_spec(lines: Seq<Seq<char>>) -> Result<
    Seq<(PrimitiveKind, Seq<Seq<char>>, Seq<Seq<char>>)>,
    ParseError,
>
    decreases lines.len(),
{
    if lines.len() == 0 {
        Ok(Seq::empty())
    } else {
        match parse_spec(lines[0]) {
            Err(e) => Err(e),
            Ok(p) => match parse_all_spec(lines.drop_first()) {
                Err(e) => Err(e),
                Ok(rest) => Ok(seq![p] + rest),
            },
        }
    }
}

pub open spec fn str_views(v: Seq<&str>) -> Seq<Seq<char>> {
    v.map_values(|s: &str| s@)
}

pub open spec fn primitive_views(v: Seq<PrimitiveText>) -> Seq<(PrimitiveKind, Seq<Seq<char>>, Seq<Seq<char>>)> {
    v.map_values(|p: PrimitiveText| p@)
}

/// Parses every line, in order; fails with the error of the first line that
/// is not a primitive.
pub fn parse_primitives(lines: &Vec<&str>) -> (r: Result<Vec<PrimitiveText>, ParseError>)
    ensures
        match r {
            Ok(v) => parse_all_spec(str_views(lines@)) == Ok::<_, ParseError>(primitive_views(v@)),
            Err(e) => parse_all_spec(str_views(lines@)) == Err::<
                Seq<(PrimitiveKind, Seq<Seq<char>>, Seq<Seq<char>>)>,
                _,
            >(e),
        },
{
    let ghost all = str_views(lines@);
    let mut out: Vec<PrimitiveText> = Vec::new();
    let mut i: usize = 0;
    proof {
        assert(all.skip(0) =~= all);
        assert(primitive_views(out@) =~= Seq::empty());
        match parse_all_spec(all) {
            Ok(rest) => assert(Seq::empty() + rest =~= rest),
            Err(_) => {},
        }
    }
    while i < lines.len()
        invariant
            all == str_views(lines@),
            i <= lines.len(),
            parse_all_spec(all) == match parse_all_spec(all.skip(i as int)) {
                Ok(rest) => Ok(primitive_views(out@) + rest),
                Err(e) => Err(e),
            },
        decreases lines.len() - i,
    {
        let ghost tail = all.skip(i as int);
        proof {
            assert(tail[0] == lines@[i as int]@);
            assert(tail.drop_first() =~= all.skip(i + 1));
        }
        match parse_primitive(lines[i]) {
            Err(e) => {
                return Err(e);
            },
            Ok(p) => {
                let ghost before = out@;
                out.push(p);
                proof {
                    assert(primitive_views(out@) =~= primitive_views(before).push(p@));
                    match parse_all_spec(all.skip(i + 1)) {
                        Ok(rest) => {
                            assert(primitive_views(before) + (seq![p@] + rest) =~= primitive_views(
                                out@,
                            ) + rest);
                        },
                        Err(_) => {},
                    }
                }
            },
        }
        i = i + 1;
    }
    proof {
        assert(all.skip(lines.len() as int) =~= Seq::empty());
        assert(primitive_views(out@) + Seq::empty() =~= primitive_views(out@));
    }
    Ok(out)
}

} // verus!
