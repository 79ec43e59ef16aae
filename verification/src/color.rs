//! Colours as the `#rrggbb` / `#rrggbbaa` text the renderers take.

use vstd::prelude::*;

verus! {

/// The lowercase hexadecimal digit for `n < 16`.
pub open spec fn hex_digit(n: int) -> char {
    if n < 10 { (('0' as int) + n) as char } else { (('a' as int) + n - 10) as char }
}

/// The two lowercase hex digits of a byte.
pub open spec fn hex_byte(b: u8) -> Seq<char> {
    seq![hex_digit((b / 16) as int), hex_digit((b % 16) as int)]
}

/// `#` followed by two lowercase hex digits per channel.
pub open spec fn hex_colour(channels: Seq<u8>) -> Seq<char>
    decreases channels.len(),
{
    if channels.len() == 0 { seq!['#'] } else { hex_colour(channels.drop_last()) + hex_byte(channels.last()) }
}

/// A `String` holding exactly the given characters (`Iterator::collect`).
#[verifier::external_body]
pub(crate) fn string_of(chars: &Vec<char>) -> (s: String)
    ensures
        s@ == chars@,
{
    chars.iter().collect()
}

fn hex_text(channels: &[u8]) -> (s: String)
    ensures
        s@ == hex_colour(channels@),
{
    let mut out: Vec<char> = Vec::new();
    out.push('#');
    let mut i: usize = 0;
    assert(channels@.take(0).len() == 0);
    while i < channels.len()
        invariant
            i <= channels@.len(),
            out@ == hex_colour(channels@.take(i as int)),
        decreases channels@.len() - i,
    {
        let b = channels[i];
        out.push(crate::text::hex_digit_exec(b / 16));
        out.push(crate::text::hex_digit_exec(b % 16));
        assert(hex_colour(channels@.take(i + 1)) == hex_colour(channels@.take(i + 1).drop_last()) + hex_byte(b));
        assert(channels@.take(i + 1).drop_last() =~= channels@.take(i as int));
        i += 1;
    }
    assert(channels@.take(channels@.len() as int) =~= channels@);
    string_of(&out)
}

/// `#rrggbb` from three channels, lowercase.
pub fn from_rgb(r: u8, g: u8, b: u8) -> (s: String)
    ensures
        s@ == hex_colour(seq![r, g, b]),
{
    let c = [r, g, b];
    assert(c@ =~= seq![r, g, b]);
    hex_text(&c)
}

/// `#rrggbbaa` from four channels, lowercase.
pub fn from_rgba(r: u8, g: u8, b: u8, a: u8) -> (s: String)
    ensures
        s@ == hex_colour(seq![r, g, b, a]),
{
    let c = [r, g, b, a];
    assert(c@ =~= seq![r, g, b, a]);
    hex_text(&c)
}


// ------------------------------------------------------------ names

/// The smaller of two counts.
pub open spec fn min_nat(x: nat, y: nat) -> nat {
    if x <= y { x } else { y }
}

/// The Levenshtein distance: the fewest single-character insertions,
/// deletions and substitutions that turn `a` into `b`.
pub open spec fn levenshtein(a: Seq<char>, b: Seq<char>) -> nat
    decreases a.len() + b.len(),
{
    if a.len() == 0 {
        b.len()
    } else if b.len() == 0 {
        a.len()
    } else {
        let cost: nat = if a.last() == b.last() { 0 } else { 1 };
        min_nat(
            min_nat(levenshtein(a.drop_last(), b.drop_last()) + cost, levenshtein(a.drop_last(), b) + 1),
            levenshtein(a, b.drop_last()) + 1,
        )
    }
}

/// The distance between two names: `usize::MAX` when their lengths
/// differ by more than three (too far apart to be a typo), otherwise
/// the Levenshtein distance.
pub open spec fn name_distance(a: Seq<char>, b: Seq<char>) -> int {
    if a.len() > b.len() + 3 || b.len() > a.len() + 3 {
        usize::MAX as int
    } else {
        levenshtein(a, b) as int
    }
}

proof fn lemma_levenshtein_bound(a: Seq<char>, b: Seq<char>)
    ensures
        levenshtein(a, b) <= if a.len() >= b.len() { a.len() } else { b.len() },
    decreases a.len() + b.len(),
{
    if a.len() > 0 && b.len() > 0 {
        lemma_levenshtein_bound(a.drop_last(), b.drop_last());
    }
}

/// `x + y`, or `usize::MAX` where that does not fit.
fn plus(x: usize, y: usize) -> (r: usize)
    ensures
        r == if x + y <= usize::MAX { x + y } else { usize::MAX as int },
{
    if x <= usize::MAX - y { x + y } else { usize::MAX }
}

/// The distance between two names (see `name_distance`).
pub fn edit_distance(a: &str, b: &str) -> (d: usize)
    ensures
        d == name_distance(a@, b@),
{
    let av = crate::text_codec::chars_of(a);
    let bv = crate::text_codec::chars_of(b);
    let la = av.len();
    let lb = bv.len();
    if (la > lb && la - lb > 3) || (lb > la && lb - la > 3) {
        return usize::MAX;
    }
    let ghost sa = av@;
    let ghost sb = bv@;
    let mut prev: Vec<usize> = Vec::new();
    let mut j: usize = 0;
    while j < lb
        invariant
            j <= lb == sb.len(),
            prev@.len() == j,
            forall|k: int| 0 <= k < j ==> #[trigger] prev@[k] == levenshtein(sa.take(0), sb.take(k)),
        decreases lb - j,
    {
        proof {
            assert(sa.take(0).len() == 0);
        }
        prev.push(j);
        j += 1;
    }
    proof {
        assert(sa.take(0).len() == 0);
    }
    prev.push(lb);
    let mut i: usize = 0;
    while i < la
        invariant
            i <= la == sa.len(),
            lb == sb.len(),
            av@ == sa,
            bv@ == sb,
            prev@.len() == lb + 1,
            forall|k: int| 0 <= k <= lb ==> #[trigger] prev@[k] == levenshtein(sa.take(i as int), sb.take(k)),
        decreases la - i,
    {
        let mut cur: Vec<usize> = Vec::new();
        proof {
            assert(sb.take(0).len() == 0);
        }
        cur.push(i + 1);
        let mut j: usize = 0;
        while j < lb
            invariant
                i < la == sa.len(),
                j <= lb == sb.len(),
                av@ == sa,
                bv@ == sb,
                prev@.len() == lb + 1,
                forall|k: int| 0 <= k <= lb ==> #[trigger] prev@[k] == levenshtein(sa.take(i as int), sb.take(k)),
                cur@.len() == j + 1,
                forall|k: int| 0 <= k <= j ==> #[trigger] cur@[k] == levenshtein(sa.take(i + 1), sb.take(k)),
            decreases lb - j,
        {
            let cost: usize = if av[i] != bv[j] { 1 } else { 0 };
            let x = plus(prev[j], cost);
            let y = plus(prev[j + 1], 1);
            let z = plus(cur[j], 1);
            let m = if x <= y { x } else { y };
            let v = if m <= z { m } else { z };
            proof {
                let aa = sa.take(i + 1);
                let bb = sb.take(j + 1);
                assert(aa.drop_last() =~= sa.take(i as int));
                assert(bb.drop_last() =~= sb.take(j as int));
                assert(aa.last() == sa[i as int]);
                assert(bb.last() == sb[j as int]);
                lemma_levenshtein_bound(aa, bb);
                let p0 = levenshtein(sa.take(i as int), sb.take(j as int));
                let p1 = levenshtein(sa.take(i as int), bb);
                let c0 = levenshtein(aa, sb.take(j as int));
                assert(prev@[j as int] == p0);
                assert(prev@[j + 1] == p1);
                assert(cur@[j as int] == c0);
                let c: nat = if aa.last() == bb.last() { 0 } else { 1 };
                assert(cost == c);
                assert(levenshtein(aa, bb) == min_nat(min_nat(p0 + c, p1 + 1), c0 + 1));
                assert(v == levenshtein(aa, bb));
            }
            cur.push(v);
            j += 1;
        }
        prev = cur;
        i += 1;
    }
    proof {
        assert(sa.take(la as int) =~= sa);
        assert(sb.take(lb as int) =~= sb);
    }
    prev[lb]
}


/// Whether `c` is a hexadecimal digit, in either case.
pub open spec fn is_hex_digit(c: char) -> bool {
    ('0' <= c && c <= '9') || ('a' <= c && c <= 'f') || ('A' <= c && c <= 'F')
}

/// A hex digit in lower case.
pub open spec fn lower_hex(c: char) -> char {
    if 'A' <= c && c <= 'F' { ((c as int) + 32) as char } else { c }
}

/// The colour spelled after `#`: three digits double up (`abc` is
/// `aabbcc`), six or eight are kept; digits come out in lower case.
/// `None` for any other length or a character that is not a hex digit.
pub open spec fn hex_form(h: Seq<char>) -> Option<Seq<char>> {
    if !(forall|i: int| 0 <= i < h.len() ==> is_hex_digit(#[trigger] h[i])) {
        None
    } else if h.len() == 3 {
        Some(seq!['#', lower_hex(h[0]), lower_hex(h[0]), lower_hex(h[1]), lower_hex(h[1]), lower_hex(h[2]), lower_hex(h[2])])
    } else if h.len() == 6 || h.len() == 8 {
        Some(seq!['#'] + h.map_values(|c: char| lower_hex(c)))
    } else {
        None
    }
}

fn is_hex_digit_exec(c: char) -> (b: bool)
    ensures
        b == is_hex_digit(c),
{
    ('0' <= c && c <= '9') || ('a' <= c && c <= 'f') || ('A' <= c && c <= 'F')
}

fn lower_hex_exec(c: char) -> (r: char)
    ensures
        r == lower_hex(c),
{
    match c {
        'A' => 'a',
        'B' => 'b',
        'C' => 'c',
        'D' => 'd',
        'E' => 'e',
        'F' => 'f',
        _ => c,
    }
}

/// The colour written `#` then `hex` (see `hex_form`); `input` is the
/// whole text, for the message.
pub fn resolve_hex(input: &str, hex: &str) -> (r: Result<String, String>)
    ensures
        match hex_form(hex@) {
            Some(t) => r matches Ok(s) && s@ == t,
            None => r is Err,
        },
{
    let h = crate::text_codec::chars_of(hex);
    let mut ok = true;
    let mut i: usize = 0;
    while i < h.len()
        invariant
            i <= h@.len(),
            ok == (forall|k: int| 0 <= k < i ==> is_hex_digit(#[trigger] h@[k])),
        decreases h@.len() - i,
    {
        ok = ok && is_hex_digit_exec(h[i]);
        i += 1;
    }
    if ok && h.len() == 3 {
        let mut out: Vec<char> = Vec::new();
        out.push('#');
        let mut k: usize = 0;
        while k < 3
            invariant
                k <= 3,
                h@.len() == 3,
                out@.len() == 1 + 2 * k,
                out@[0] == '#',
                forall|j: int| 0 <= j < k ==> out@[1 + 2 * j] == lower_hex(h@[j]) && out@[2 + 2 * j] == lower_hex(h@[j]),
            decreases 3 - k,
        {
            let c = lower_hex_exec(h[k]);
            out.push(c);
            out.push(c);
            k += 1;
        }
        assert(out@ =~= seq!['#', lower_hex(h@[0]), lower_hex(h@[0]), lower_hex(h@[1]), lower_hex(h@[1]), lower_hex(h@[2]), lower_hex(h@[2])]);
        return Ok(string_of(&out));
    }
    if ok && (h.len() == 6 || h.len() == 8) {
        let mut out: Vec<char> = Vec::new();
        out.push('#');
        let mut k: usize = 0;
        while k < h.len()
            invariant
                k <= h@.len(),
                out@ =~= seq!['#'] + h@.take(k as int).map_values(|c: char| lower_hex(c)),
            decreases h@.len() - k,
        {
            out.push(lower_hex_exec(h[k]));
            proof {
                assert(h@.take(k + 1).map_values(|c: char| lower_hex(c)) =~= h@.take(k as int).map_values(|c: char| lower_hex(c)).push(lower_hex(h@[k as int])));
            }
            k += 1;
        }
        assert(h@.take(h@.len() as int) =~= h@);
        return Ok(string_of(&out));
    }
    let before = crate::text::with_text("`", input, "` is not a colour -- after `#` expected 3, 6 or 8 hex digits, found ");
    Err(crate::text::with_number(before.as_str(), hex.len() as u64, ""))
}

/// The CSS/SVG colour names with their `#rrggbb`, in ascending order of
/// name: the names every browser and SVG viewer answers to.
pub open spec fn colour_names() -> Seq<(Seq<char>, Seq<char>)> {
    seq![
        ("aliceblue"@, "#f0f8ff"@),
        ("antiquewhite"@, "#faebd7"@),
        ("aqua"@, "#00ffff"@),
        ("aquamarine"@, "#7fffd4"@),
        ("azure"@, "#f0ffff"@),
        ("beige"@, "#f5f5dc"@),
        ("bisque"@, "#ffe4c4"@),
        ("black"@, "#000000"@),
        ("blanchedalmond"@, "#ffebcd"@),
        ("blue"@, "#0000ff"@),
        ("blueviolet"@, "#8a2be2"@),
        ("brown"@, "#a52a2a"@),
        ("burlywood"@, "#deb887"@),
        ("cadetblue"@, "#5f9ea0"@),
        ("chartreuse"@, "#7fff00"@),
        ("chocolate"@, "#d2691e"@),
        ("coral"@, "#ff7f50"@),
        ("cornflowerblue"@, "#6495ed"@),
        ("cornsilk"@, "#fff8dc"@),
        ("crimson"@, "#dc143c"@),
        ("cyan"@, "#00ffff"@),
        ("darkblue"@, "#00008b"@),
        ("darkcyan"@, "#008b8b"@),
        ("darkgoldenrod"@, "#b8860b"@),
        ("darkgray"@, "#a9a9a9"@),
        ("darkgreen"@, "#006400"@),
        ("darkgrey"@, "#a9a9a9"@),
        ("darkkhaki"@, "#bdb76b"@),
        ("darkmagenta"@, "#8b008b"@),
        ("darkolivegreen"@, "#556b2f"@),
        ("darkorange"@, "#ff8c00"@),
        ("darkorchid"@, "#9932cc"@),
        ("darkred"@, "#8b0000"@),
        ("darksalmon"@, "#e9967a"@),
        ("darkseagreen"@, "#8fbc8f"@),
        ("darkslateblue"@, "#483d8b"@),
        ("darkslategray"@, "#2f4f4f"@),
        ("darkslategrey"@, "#2f4f4f"@),
        ("darkturquoise"@, "#00ced1"@),
        ("darkviolet"@, "#9400d3"@),
        ("deeppink"@, "#ff1493"@),
        ("deepskyblue"@, "#00bfff"@),
        ("dimgray"@, "#696969"@),
        ("dimgrey"@, "#696969"@),
        ("dodgerblue"@, "#1e90ff"@),
        ("firebrick"@, "#b22222"@),
        ("floralwhite"@, "#fffaf0"@),
        ("forestgreen"@, "#228b22"@),
        ("fuchsia"@, "#ff00ff"@),
        ("gainsboro"@, "#dcdcdc"@),
        ("ghostwhite"@, "#f8f8ff"@),
        ("gold"@, "#ffd700"@),
        ("goldenrod"@, "#daa520"@),
        ("gray"@, "#808080"@),
        ("green"@, "#008000"@),
        ("greenyellow"@, "#adff2f"@),
        ("grey"@, "#808080"@),
        ("honeydew"@, "#f0fff0"@),
        ("hotpink"@, "#ff69b4"@),
        ("indianred"@, "#cd5c5c"@),
        ("indigo"@, "#4b0082"@),
        ("ivory"@, "#fffff0"@),
        ("khaki"@, "#f0e68c"@),
        ("lavender"@, "#e6e6fa"@),
        ("lavenderblush"@, "#fff0f5"@),
        ("lawngreen"@, "#7cfc00"@),
        ("lemonchiffon"@, "#fffacd"@),
        ("lightblue"@, "#add8e6"@),
        ("lightcoral"@, "#f08080"@),
        ("lightcyan"@, "#e0ffff"@),
        ("lightgoldenrodyellow"@, "#fafad2"@),
        ("lightgray"@, "#d3d3d3"@),
        ("lightgreen"@, "#90ee90"@),
        ("lightgrey"@, "#d3d3d3"@),
        ("lightpink"@, "#ffb6c1"@),
        ("lightsalmon"@, "#ffa07a"@),
        ("lightseagreen"@, "#20b2aa"@),
        ("lightskyblue"@, "#87cefa"@),
        ("lightslategray"@, "#778899"@),
        ("lightslategrey"@, "#778899"@),
        ("lightsteelblue"@, "#b0c4de"@),
        ("lightyellow"@, "#ffffe0"@),
        ("lime"@, "#00ff00"@),
        ("limegreen"@, "#32cd32"@),
        ("linen"@, "#faf0e6"@),
        ("magenta"@, "#ff00ff"@),
        ("maroon"@, "#800000"@),
        ("mediumaquamarine"@, "#66cdaa"@),
        ("mediumblue"@, "#0000cd"@),
        ("mediumorchid"@, "#ba55d3"@),
        ("mediumpurple"@, "#9370db"@),
        ("mediumseagreen"@, "#3cb371"@),
        ("mediumslateblue"@, "#7b68ee"@),
        ("mediumspringgreen"@, "#00fa9a"@),
        ("mediumturquoise"@, "#48d1cc"@),
        ("mediumvioletred"@, "#c71585"@),
        ("midnightblue"@, "#191970"@),
        ("mintcream"@, "#f5fffa"@),
        ("mistyrose"@, "#ffe4e1"@),
        ("moccasin"@, "#ffe4b5"@),
        ("navajowhite"@, "#ffdead"@),
        ("navy"@, "#000080"@),
        ("oldlace"@, "#fdf5e6"@),
        ("olive"@, "#808000"@),
        ("olivedrab"@, "#6b8e23"@),
        ("orange"@, "#ffa500"@),
        ("orangered"@, "#ff4500"@),
        ("orchid"@, "#da70d6"@),
        ("palegoldenrod"@, "#eee8aa"@),
        ("palegreen"@, "#98fb98"@),
        ("paleturquoise"@, "#afeeee"@),
        ("palevioletred"@, "#db7093"@),
        ("papayawhip"@, "#ffefd5"@),
        ("peachpuff"@, "#ffdab9"@),
        ("peru"@, "#cd853f"@),
        ("pink"@, "#ffc0cb"@),
        ("plum"@, "#dda0dd"@),
        ("powderblue"@, "#b0e0e6"@),
        ("purple"@, "#800080"@),
        ("rebeccapurple"@, "#663399"@),
        ("red"@, "#ff0000"@),
        ("rosybrown"@, "#bc8f8f"@),
        ("royalblue"@, "#4169e1"@),
        ("saddlebrown"@, "#8b4513"@),
        ("salmon"@, "#fa8072"@),
        ("sandybrown"@, "#f4a460"@),
        ("seagreen"@, "#2e8b57"@),
        ("seashell"@, "#fff5ee"@),
        ("sienna"@, "#a0522d"@),
        ("silver"@, "#c0c0c0"@),
        ("skyblue"@, "#87ceeb"@),
        ("slateblue"@, "#6a5acd"@),
        ("slategray"@, "#708090"@),
        ("slategrey"@, "#708090"@),
        ("snow"@, "#fffafa"@),
        ("springgreen"@, "#00ff7f"@),
        ("steelblue"@, "#4682b4"@),
        ("tan"@, "#d2b48c"@),
        ("teal"@, "#008080"@),
        ("thistle"@, "#d8bfd8"@),
        ("tomato"@, "#ff6347"@),
        ("turquoise"@, "#40e0d0"@),
        ("violet"@, "#ee82ee"@),
        ("wheat"@, "#f5deb3"@),
        ("white"@, "#ffffff"@),
        ("whitesmoke"@, "#f5f5f5"@),
        ("yellow"@, "#ffff00"@),
        ("yellowgreen"@, "#9acd32"@)
    ]
}

/// The texts of a table of names.
pub open spec fn names_view(v: Seq<(&'static str, &'static str)>) -> Seq<(Seq<char>, Seq<char>)> {
    v.map_values(|e: (&'static str, &'static str)| (e.0@, e.1@))
}

/// The table of colour names (see `colour_names`).
#[verifier::rlimit(100)]
pub fn colour_table() -> (v: Vec<(&'static str, &'static str)>)
    ensures
        names_view(v@) == colour_names(),
{
    let v: Vec<(&'static str, &'static str)> = vec![
        ("aliceblue", "#f0f8ff"),
        ("antiquewhite", "#faebd7"),
        ("aqua", "#00ffff"),
        ("aquamarine", "#7fffd4"),
        ("azure", "#f0ffff"),
        ("beige", "#f5f5dc"),
        ("bisque", "#ffe4c4"),
        ("black", "#000000"),
        ("blanchedalmond", "#ffebcd"),
        ("blue", "#0000ff"),
        ("blueviolet", "#8a2be2"),
        ("brown", "#a52a2a"),
        ("burlywood", "#deb887"),
        ("cadetblue", "#5f9ea0"),
        ("chartreuse", "#7fff00"),
        ("chocolate", "#d2691e"),
        ("coral", "#ff7f50"),
        ("cornflowerblue", "#6495ed"),
        ("cornsilk", "#fff8dc"),
        ("crimson", "#dc143c"),
        ("cyan", "#00ffff"),
        ("darkblue", "#00008b"),
        ("darkcyan", "#008b8b"),
        ("darkgoldenrod", "#b8860b"),
        ("darkgray", "#a9a9a9"),
        ("darkgreen", "#006400"),
        ("darkgrey", "#a9a9a9"),
        ("darkkhaki", "#bdb76b"),
        ("darkmagenta", "#8b008b"),
        ("darkolivegreen", "#556b2f"),
        ("darkorange", "#ff8c00"),
        ("darkorchid", "#9932cc"),
        ("darkred", "#8b0000"),
        ("darksalmon", "#e9967a"),
        ("darkseagreen", "#8fbc8f"),
        ("darkslateblue", "#483d8b"),
        ("darkslategray", "#2f4f4f"),
        ("darkslategrey", "#2f4f4f"),
        ("darkturquoise", "#00ced1"),
        ("darkviolet", "#9400d3"),
        ("deeppink", "#ff1493"),
        ("deepskyblue", "#00bfff"),
        ("dimgray", "#696969"),
        ("dimgrey", "#696969"),
        ("dodgerblue", "#1e90ff"),
        ("firebrick", "#b22222"),
        ("floralwhite", "#fffaf0"),
        ("forestgreen", "#228b22"),
        ("fuchsia", "#ff00ff"),
        ("gainsboro", "#dcdcdc"),
        ("ghostwhite", "#f8f8ff"),
        ("gold", "#ffd700"),
        ("goldenrod", "#daa520"),
        ("gray", "#808080"),
        ("green", "#008000"),
        ("greenyellow", "#adff2f"),
        ("grey", "#808080"),
        ("honeydew", "#f0fff0"),
        ("hotpink", "#ff69b4"),
        ("indianred", "#cd5c5c"),
        ("indigo", "#4b0082"),
        ("ivory", "#fffff0"),
        ("khaki", "#f0e68c"),
        ("lavender", "#e6e6fa"),
        ("lavenderblush", "#fff0f5"),
        ("lawngreen", "#7cfc00"),
        ("lemonchiffon", "#fffacd"),
        ("lightblue", "#add8e6"),
        ("lightcoral", "#f08080"),
        ("lightcyan", "#e0ffff"),
        ("lightgoldenrodyellow", "#fafad2"),
        ("lightgray", "#d3d3d3"),
        ("lightgreen", "#90ee90"),
        ("lightgrey", "#d3d3d3"),
        ("lightpink", "#ffb6c1"),
        ("lightsalmon", "#ffa07a"),
        ("lightseagreen", "#20b2aa"),
        ("lightskyblue", "#87cefa"),
        ("lightslategray", "#778899"),
        ("lightslategrey", "#778899"),
        ("lightsteelblue", "#b0c4de"),
        ("lightyellow", "#ffffe0"),
        ("lime", "#00ff00"),
        ("limegreen", "#32cd32"),
        ("linen", "#faf0e6"),
        ("magenta", "#ff00ff"),
        ("maroon", "#800000"),
        ("mediumaquamarine", "#66cdaa"),
        ("mediumblue", "#0000cd"),
        ("mediumorchid", "#ba55d3"),
        ("mediumpurple", "#9370db"),
        ("mediumseagreen", "#3cb371"),
        ("mediumslateblue", "#7b68ee"),
        ("mediumspringgreen", "#00fa9a"),
        ("mediumturquoise", "#48d1cc"),
        ("mediumvioletred", "#c71585"),
        ("midnightblue", "#191970"),
        ("mintcream", "#f5fffa"),
        ("mistyrose", "#ffe4e1"),
        ("moccasin", "#ffe4b5"),
        ("navajowhite", "#ffdead"),
        ("navy", "#000080"),
        ("oldlace", "#fdf5e6"),
        ("olive", "#808000"),
        ("olivedrab", "#6b8e23"),
        ("orange", "#ffa500"),
        ("orangered", "#ff4500"),
        ("orchid", "#da70d6"),
        ("palegoldenrod", "#eee8aa"),
        ("palegreen", "#98fb98"),
        ("paleturquoise", "#afeeee"),
        ("palevioletred", "#db7093"),
        ("papayawhip", "#ffefd5"),
        ("peachpuff", "#ffdab9"),
        ("peru", "#cd853f"),
        ("pink", "#ffc0cb"),
        ("plum", "#dda0dd"),
        ("powderblue", "#b0e0e6"),
        ("purple", "#800080"),
        ("rebeccapurple", "#663399"),
        ("red", "#ff0000"),
        ("rosybrown", "#bc8f8f"),
        ("royalblue", "#4169e1"),
        ("saddlebrown", "#8b4513"),
        ("salmon", "#fa8072"),
        ("sandybrown", "#f4a460"),
        ("seagreen", "#2e8b57"),
        ("seashell", "#fff5ee"),
        ("sienna", "#a0522d"),
        ("silver", "#c0c0c0"),
        ("skyblue", "#87ceeb"),
        ("slateblue", "#6a5acd"),
        ("slategray", "#708090"),
        ("slategrey", "#708090"),
        ("snow", "#fffafa"),
        ("springgreen", "#00ff7f"),
        ("steelblue", "#4682b4"),
        ("tan", "#d2b48c"),
        ("teal", "#008080"),
        ("thistle", "#d8bfd8"),
        ("tomato", "#ff6347"),
        ("turquoise", "#40e0d0"),
        ("violet", "#ee82ee"),
        ("wheat", "#f5deb3"),
        ("white", "#ffffff"),
        ("whitesmoke", "#f5f5f5"),
        ("yellow", "#ffff00"),
        ("yellowgreen", "#9acd32"),
    ];
    assert(names_view(v@) =~= colour_names());
    v
}


/// Whether the characters are those of the text.
fn same_text(a: &Vec<char>, b: &str) -> (r: bool)
    ensures
        r == (a@ == b@),
{
    let bv = crate::text_codec::chars_of(b);
    if a.len() != bv.len() {
        return false;
    }
    let mut i: usize = 0;
    while i < a.len()
        invariant
            i <= a@.len() == bv@.len(),
            bv@ == b@,
            forall|k: int| 0 <= k < i ==> a@[k] == bv@[k],
        decreases a@.len() - i,
    {
        if a[i] != bv[i] {
            return false;
        }
        i += 1;
    }
    assert(a@ =~= bv@);
    true
}

/// The first entry from `i` on whose name is `key`.
pub open spec fn name_index(names: Seq<(Seq<char>, Seq<char>)>, key: Seq<char>, i: int) -> Option<int>
    decreases names.len() - i,
{
    if i < 0 || i >= names.len() {
        None
    } else if names[i].0 == key {
        Some(i)
    } else {
        name_index(names, key, i + 1)
    }
}

/// The `#rrggbb` of the colour named `key`, written as the table writes
/// it (lower case, no spaces).
pub fn named_colour(key: &str) -> (r: Option<String>)
    ensures
        match name_index(colour_names(), key@, 0) {
            Some(i) => r matches Some(s) && s@ == colour_names()[i].1,
            None => r is None,
        },
{
    let table = colour_table();
    let k = crate::text_codec::chars_of(key);
    let mut i: usize = 0;
    while i < table.len()
        invariant
            i <= table@.len(),
            names_view(table@) == colour_names(),
            k@ == key@,
            name_index(colour_names(), key@, 0) == name_index(colour_names(), key@, i as int),
        decreases table@.len() - i,
    {
        let (name, hex) = table[i];
        assert(colour_names()[i as int] == (name@, hex@));
        if same_text(&k, name) {
            return Some(crate::text::owned(hex));
        }
        i += 1;
    }
    None
}

/// The nearest name among the first `k` entries, with its distance: the
/// first of those at the smallest distance, if that distance is at most
/// three.
pub open spec fn nearest_from(names: Seq<(Seq<char>, Seq<char>)>, key: Seq<char>, k: int) -> Option<(int, int)>
    decreases k,
{
    if k <= 0 {
        None
    } else {
        let prev = nearest_from(names, key, k - 1);
        let d = name_distance(key, names[k - 1].0);
        if d <= 3 && (prev matches Some((_, bd)) ==> d < bd) {
            Some((k - 1, d))
        } else {
            prev
        }
    }
}

/// The known colour name nearest to `key` (see `nearest_from`), when
/// one is close enough to be a misspelling.
pub fn nearest_name(key: &str) -> (r: Option<&'static str>)
    ensures
        match nearest_from(colour_names(), key@, colour_names().len() as int) {
            Some((i, _)) => r matches Some(n) && n@ == colour_names()[i].0,
            None => r is None,
        },
{
    let table = colour_table();
    let mut best: Option<(usize, &'static str)> = None;
    let mut i: usize = 0;
    while i < table.len()
        invariant
            i <= table@.len(),
            names_view(table@) == colour_names(),
            match nearest_from(colour_names(), key@, i as int) {
                Some((j, d)) => best matches Some((bd, n)) && bd == d && n@ == colour_names()[j].0,
                None => best is None,
            },
        decreases table@.len() - i,
    {
        let (name, _) = table[i];
        assert(colour_names()[i as int].0 == name@);
        let d = edit_distance(key, name);
        let closer = match best {
            Some((bd, _)) => d < bd,
            None => true,
        };
        if d <= 3 && closer {
            best = Some((d, name));
        }
        i += 1;
    }
    match best {
        Some((_, n)) => Some(n),
        None => None,
    }
}


proof fn lemma_hex_digit_canonical(n: int)
    requires
        0 <= n < 16,
    ensures
        is_hex_digit(hex_digit(n)),
        lower_hex(hex_digit(n)) == hex_digit(n),
{
}

/// The text `from_rgb` writes is already in the canonical form: read
/// back as a `#` colour it comes out unchanged.
pub proof fn lemma_rgb_text_is_canonical(r: u8, g: u8, b: u8)
    ensures
        hex_form(hex_colour(seq![r, g, b]).drop_first()) == Some(hex_colour(seq![r, g, b])),
{
    reveal_with_fuel(hex_colour, 4);
    let t = hex_colour(seq![r, g, b]);
    assert(seq![r, g, b].drop_last() =~= seq![r, g]);
    assert(seq![r, g].drop_last() =~= seq![r]);
    assert(seq![r].drop_last() =~= Seq::<u8>::empty());
    assert(t =~= seq!['#'] + hex_byte(r) + hex_byte(g) + hex_byte(b));
    let h = t.drop_first();
    assert(h.len() == 6);
    assert forall|i: int| 0 <= i < 6 implies is_hex_digit(#[trigger] h[i]) && lower_hex(h[i]) == h[i] by {
        lemma_hex_digit_canonical((r / 16) as int);
        lemma_hex_digit_canonical((r % 16) as int);
        lemma_hex_digit_canonical((g / 16) as int);
        lemma_hex_digit_canonical((g % 16) as int);
        lemma_hex_digit_canonical((b / 16) as int);
        lemma_hex_digit_canonical((b % 16) as int);
    }
    assert(h.map_values(|c: char| lower_hex(c)) =~= h);
    assert(seq!['#'] + h =~= t);
}

} // verus!
