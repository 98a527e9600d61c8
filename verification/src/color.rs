use vstd::prelude::*;

verus! {

/// An RGB pixel value.
#[derive(Debug, Clone, Copy, PartialEq, Eq, Structural)]
pub struct Rgb {
    pub r: u8,
    pub g: u8,
    pub b: u8,
}

/// The classes the colour scan looks for.
#[derive(Debug, Clone, Copy, PartialEq, Eq, Hash, Structural)]
pub enum Color {
    White,
    Orange,
    Red,
    CarCenter,
    CarDirection,
    Debug,
}

impl Color {
    /// The colour used to draw marks of this class.
    pub fn rgb(&self) -> (c: Rgb)
        ensures
            c == color_rgb(*self),
    {
        match self {
            Color::White => Rgb { r: 247, g: 246, b: 5 },
            Color::Orange => Rgb { r: 255, g: 165, b: 80 },
            Color::Red => Rgb { r: 255, g: 125, b: 20 },
            Color::CarCenter => Rgb { r: 100, g: 255, b: 100 },
            Color::CarDirection => Rgb { r: 100, g: 255, b: 150 },
            Color::Debug => Rgb { r: 222, g: 193, b: 132 },
        }
    }
}

/// Drawing colour of each class.
pub open spec fn color_rgb(c: Color) -> Rgb {
    match c {
        Color::White => Rgb { r: 247, g: 246, b: 5 },
        Color::Orange => Rgb { r: 255, g: 165, b: 80 },
        Color::Red => Rgb { r: 255, g: 125, b: 20 },
        Color::CarCenter => Rgb { r: 100, g: 255, b: 100 },
        Color::CarDirection => Rgb { r: 100, g: 255, b: 150 },
        Color::Debug => Rgb { r: 222, g: 193, b: 132 },
    }
}

/// Value of an upper-case hexadecimal digit; -1 for any other character.
pub open spec fn hex_value(c: char) -> int {
    if '0' <= c <= '9' {
        c as int - '0' as int
    } else if 'A' <= c <= 'F' {
        c as int - 'A' as int + 10
    } else {
        -1
    }
}

/// Value of the upper-case hexadecimal digit `character`; there must be one.
pub fn map_hex_val(character: Option<char>) -> (v: u8)
    requires
        character matches Some(c) && hex_value(c) >= 0,
    ensures
        v == hex_value(character->0),
{
    let c = character.unwrap();
    if '0' <= c && c <= '9' {
        (c as u32 - '0' as u32) as u8
    } else {
        (c as u32 - 'A' as u32 + 10) as u8
    }
}

/// What `char::to_uppercase` yields for `c`.
pub uninterp spec fn upper_of(c: char) -> Seq<char>;

/// Upper-case mapping of one character (`char::to_uppercase`, collected). The standard
/// library documents one or more characters; ASCII letters `a..z` map to `A..Z` and
/// every other ASCII character to itself. What it yields for other characters is
/// Unicode's mapping and is only named here.
#[verifier::external_body]
fn char_to_upper(c: char) -> (r: Vec<char>)
    ensures
        r@ == upper_of(c),
        r@.len() >= 1,
        'a' <= c <= 'z' ==> r@ == seq![((c as u32) - 32) as char],
        (c as u32) < 128 && !('a' <= c <= 'z') ==> r@ == seq![c],
{
    c.to_uppercase().collect()
}

/// The upper-case form of a string, character by character.
pub open spec fn upper_seq(s: Seq<char>) -> Seq<char>
    decreases s.len(),
{
    if s.len() == 0 {
        Seq::empty()
    } else {
        upper_seq(s.drop_last()) + upper_of(s.last())
    }
}

/// The text after the last `#` (the whole text when there is none).
pub open spec fn after_last_hash(s: Seq<char>) -> Seq<char>
    decreases s.len(),
{
    if s.len() == 0 {
        s
    } else if s.last() == '#' {
        Seq::empty()
    } else {
        after_last_hash(s.drop_last()).push(s.last())
    }
}

/// The text holds ASCII characters only.
pub open spec fn is_ascii_text(s: Seq<char>) -> bool {
    forall|i: int| 0 <= i < s.len() ==> (#[trigger] s[i] as u32) < 128
}

/// ASCII upper-casing of one character: `a..z` become `A..Z`, the rest stays.
pub open spec fn ascii_upper(c: char) -> char {
    if 'a' <= c <= 'z' {
        ((c as u32) - 32) as char
    } else {
        c
    }
}

/// ASCII upper-casing of a text, character by character.
pub open spec fn ascii_upper_seq(s: Seq<char>) -> Seq<char>
    decreases s.len(),
{
    if s.len() == 0 {
        Seq::empty()
    } else {
        ascii_upper_seq(s.drop_last()).push(ascii_upper(s.last()))
    }
}

/// The text after the last `#` of an ASCII text is ASCII.
proof fn lemma_after_last_hash_ascii(s: Seq<char>)
    requires
        is_ascii_text(s),
    ensures
        is_ascii_text(after_last_hash(s)),
    decreases s.len(),
{
    if s.len() > 0 && s.last() != '#' {
        let pre = s.drop_last();
        assert(is_ascii_text(pre)) by {
            assert forall|i: int| 0 <= i < pre.len() implies (#[trigger] pre[i] as u32) < 128 by {
                assert(pre[i] == s[i]);
            }
        }
        lemma_after_last_hash_ascii(pre);
        let a = after_last_hash(pre).push(s.last());
        assert forall|i: int| 0 <= i < a.len() implies (#[trigger] a[i] as u32) < 128 by {
            if i < a.len() - 1 {
                assert(a[i] == after_last_hash(pre)[i]);
            } else {
                assert(a[i] == s[s.len() - 1]);
            }
        }
    }
}

/// The upper-cased colour digits of a `#rrggbb` text.
pub open spec fn hex_digits(hex: Seq<char>) -> Seq<char> {
    upper_seq(after_last_hash(hex))
}

/// The text names a colour: after its last `#`, upper-cased, it starts with six
/// hexadecimal digits.
pub open spec fn hex_ok(hex: Seq<char>) -> bool {
    digits_ok(hex_digits(hex))
}

/// The text starts with six upper-case hexadecimal digits.
pub open spec fn digits_ok(u: Seq<char>) -> bool {
    u.len() >= 6 && forall|i: int| 0 <= i < 6 ==> hex_value(#[trigger] u[i]) >= 0
}

/// The colour whose channels are the three digit pairs of `u`.
pub open spec fn rgb_of_digits(u: Seq<char>) -> Rgb {
    Rgb {
        r: (16 * hex_value(u[0]) + hex_value(u[1])) as u8,
        g: (16 * hex_value(u[2]) + hex_value(u[3])) as u8,
        b: (16 * hex_value(u[4]) + hex_value(u[5])) as u8,
    }
}

/// The upper-cased text after the last `#` of `hex`.
fn upper_digits(hex: &str) -> (u: Vec<char>)
    ensures
        u@ == hex_digits(hex@),
        is_ascii_text(hex@) ==> u@ == ascii_upper_seq(after_last_hash(hex@)),
{
    let mut suffix: Vec<char> = Vec::new();
    let ghost mut seen: Seq<char> = Seq::empty();
    for c in it: hex.chars()
        invariant
            seen == it.seq().take(it.index() as int),
            suffix@ == after_last_hash(seen),
    {
        proof {
            assert(it.seq().take(it.index() + 1) =~= seen.push(c));
            seen = seen.push(c);
            assert(seen.drop_last() =~= it.seq().take(it.index() as int));
        }
        if c == '#' {
            suffix = Vec::new();
        } else {
            suffix.push(c);
        }
    }
    proof {
        assert(seen =~= hex@);
        if is_ascii_text(hex@) {
            lemma_after_last_hash_ascii(hex@);
        }
    }
    let mut upper: Vec<char> = Vec::new();
    let mut i: usize = 0;
    while i < suffix.len()
        invariant
            i <= suffix@.len(),
            upper@ == upper_seq(suffix@.take(i as int)),
            is_ascii_text(suffix@) ==> upper@ == ascii_upper_seq(suffix@.take(i as int)),
        decreases suffix@.len() - i,
    {
        let u = char_to_upper(suffix[i]);
        let ghost ascii_before = ascii_upper_seq(suffix@.take(i as int));
        let mut j: usize = 0;
        let ghost before = upper@;
        while j < u.len()
            invariant
                j <= u@.len(),
                upper@ == before + u@.take(j as int),
            decreases u@.len() - j,
        {
            upper.push(u[j]);
            j = j + 1;
            assert(upper@ =~= before + u@.take(j as int));
        }
        proof {
            assert(u@.take(u@.len() as int) =~= u@);
            assert(suffix@.take(i + 1).drop_last() =~= suffix@.take(i as int));
            if is_ascii_text(suffix@) {
                assert((suffix@[i as int] as u32) < 128);
                assert(u@ == seq![ascii_upper(suffix@[i as int])]);
                assert(upper@ =~= ascii_before.push(ascii_upper(suffix@[i as int])));
            }
        }
        i = i + 1;
    }
    proof {
        assert(suffix@.take(suffix@.len() as int) =~= suffix@);
    }
    upper
}

/// Parses `#rrggbb` (the part after the last `#`, any letter case); six hexadecimal
/// digits must follow.
pub fn hex_to_rgb(hex: &str) -> (c: Rgb)
    requires
        hex_ok(hex@),
    ensures
        c == rgb_of_digits(hex_digits(hex@)),
        is_ascii_text(hex@) ==> c == rgb_of_digits(ascii_upper_seq(after_last_hash(hex@))),
{
    let u = upper_digits(hex);
    proof {
        assert(hex_value(u@[0]) >= 0 && hex_value(u@[1]) >= 0 && hex_value(u@[2]) >= 0);
        assert(hex_value(u@[3]) >= 0 && hex_value(u@[4]) >= 0 && hex_value(u@[5]) >= 0);
    }
    let r = map_hex_val(Some(u[0])) * 16 + map_hex_val(Some(u[1]));
    let g = map_hex_val(Some(u[2])) * 16 + map_hex_val(Some(u[3]));
    let b = map_hex_val(Some(u[4])) * 16 + map_hex_val(Some(u[5]));
    Rgb { r, g, b }
}

/// `Some` colour when the text names one (see `hex_ok`), else `None`.
pub fn parse_hex(hex: &str) -> (c: Option<Rgb>)
    ensures
        c is Some <==> hex_ok(hex@),
        c matches Some(v) ==> v == rgb_of_digits(hex_digits(hex@)),
        is_ascii_text(hex@) ==> (c is Some <==> digits_ok(ascii_upper_seq(after_last_hash(hex@)))),
        is_ascii_text(hex@) ==> (c matches Some(v) ==> v == rgb_of_digits(ascii_upper_seq(after_last_hash(hex@)))),
{
    let u = upper_digits(hex);
    if u.len() < 6 {
        return None;
    }
    let mut i: usize = 0;
    while i < 6
        invariant
            i <= 6,
            u@.len() >= 6,
            u@ == hex_digits(hex@),
            is_ascii_text(hex@) ==> u@ == ascii_upper_seq(after_last_hash(hex@)),
            forall|k: int| 0 <= k < i ==> hex_value(#[trigger] u@[k]) >= 0,
        decreases 6 - i,
    {
        let c = u[i];
        if !(('0' <= c && c <= '9') || ('A' <= c && c <= 'F')) {
            proof {
                let d = hex_digits(hex@);
                assert(d == u@);
                assert(hex_value(d[i as int]) < 0);
                assert(!hex_ok(hex@));
            }
            return None;
        }
        i = i + 1;
    }
    Some(hex_to_rgb(hex))
}

/// A colour given as text together with its parsed value.
#[derive(Debug)]
pub struct Hex {
    pub hex: String,
    pub rgb: Rgb,
}

impl Hex {
    pub fn new(hex: String) -> (h: Hex)
        requires
            hex_ok(hex@),
        ensures
            h.hex@ == hex@,
            h.rgb == rgb_of_digits(hex_digits(hex@)),
    {
        let rgb = hex_to_rgb(hex.as_str());
        Hex { hex, rgb }
    }
}

/// Channel distance `|value - target|` and whether it is within `allowed_distance`.
pub fn check_color(value: u8, target: u8, allowed_distance: u8) -> (r: (bool, u32))
    ensures
        r.1 == (if value >= target { value - target } else { target - value }),
        r.0 == (r.1 <= allowed_distance),
{
    let value: i32 = value as i32;
    let target: i32 = target as i32;
    let dist = if value >= target {
        value - target
    } else {
        target - value
    };
    (dist <= allowed_distance as i32, dist as u32)
}

} // verus!
