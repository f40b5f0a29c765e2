//! Reading what Tesseract prints: the word table it writes in TSV form,
//! and the normalisation of recognised text into a single line.

use vstd::prelude::*;

use crate::ocr::OcrWord;

verus! {

/// Appends `c` to `s`: `String::push`, documented as appending the given
/// char to the end of the string.
#[verifier::external_body]
pub(crate) fn push_char(s: &mut String, c: char)
    ensures
        final(s)@ == old(s)@.push(c),
{
    s.push(c)
}

/// The characters `s@[start..end]` as a string.
pub fn string_of_range(s: &Vec<char>, start: usize, end: usize) -> (r: String)
    requires
        start <= end <= s.len(),
    ensures
        r@ == s@.subrange(start as int, end as int),
{
    let mut out = String::new();
    let mut i = start;
    while i < end
        invariant
            start <= i <= end <= s.len(),
            out@ == s@.subrange(start as int, i as int),
        decreases end - i,
    {
        push_char(&mut out, s[i]);
        assert(out@ =~= s@.subrange(start as int, i + 1));
        i = i + 1;
    }
    out
}

/// The characters of `s`, in order.
pub fn chars_of(s: &str) -> (r: Vec<char>)
    ensures
        r@ == s@,
{
    let mut out: Vec<char> = Vec::new();
    for c in it: s.chars()
        invariant
            it.seq() == s@,
            out@ == s@.take(it.index() as int),
    {
        out.push(c);
    }
    proof {
        assert(out@ =~= s@);
    }
    out
}

/// `s` cut at every `sep`: the pieces between the separators, in order,
/// empty ones included (what `str::split` yields).
pub open spec fn split_on(s: Seq<char>, sep: char) -> Seq<Seq<char>>
    decreases s.len(),
{
    if s.len() == 0 {
        seq![Seq::empty()]
    } else {
        let pieces = split_on(s.drop_last(), sep);
        if s.last() == sep {
            pieces.push(Seq::empty())
        } else {
            pieces.update(pieces.len() - 1, pieces.last().push(s.last()))
        }
    }
}

/// There is always at least one piece.
pub proof fn lemma_split_on_len(s: Seq<char>, sep: char)
    ensures
        split_on(s, sep).len() >= 1,
    decreases s.len(),
{
    if s.len() > 0 {
        lemma_split_on_len(s.drop_last(), sep);
    }
}

/// The pieces of `s` between the separators `sep`.
pub fn split_chars(s: &Vec<char>, sep: char) -> (r: Vec<Vec<char>>)
    ensures
        r@.map_values(|p: Vec<char>| p@) == split_on(s@, sep),
{
    let mut pieces: Vec<Vec<char>> = Vec::new();
    let mut current: Vec<char> = Vec::new();
    let mut i: usize = 0;
    while i < s.len()
        invariant
            0 <= i <= s.len(),
            pieces@.map_values(|p: Vec<char>| p@).push(current@) == split_on(s@.take(i as int), sep),
        decreases s.len() - i,
    {
        let ghost prefix = s@.take(i as int);
        assert(s@.take(i + 1).drop_last() == prefix);
        let c = s[i];
        if c == sep {
            let done = current;
            pieces.push(done);
            current = Vec::new();
            proof {
                assert(pieces@.map_values(|p: Vec<char>| p@) =~= split_on(prefix, sep));
            }
        } else {
            current.push(c);
            proof {
                lemma_split_on_len(prefix, sep);
                assert(pieces@.map_values(|p: Vec<char>| p@).push(current@) =~= split_on(s@.take(i + 1), sep));
            }
        }
        i = i + 1;
    }
    assert(s@.take(s.len() as int) =~= s@);
    pieces.push(current);
    proof {
        assert(pieces@.map_values(|p: Vec<char>| p@) =~= split_on(s@, sep));
    }
    pieces
}

/// The Unicode `White_Space` characters, which `char::is_whitespace`
/// and `str::trim` go by.
pub open spec fn is_white_space(c: char) -> bool {
    let u = c as u32;
    ||| 0x09 <= u <= 0x0D
    ||| u == 0x20
    ||| u == 0x85
    ||| u == 0xA0
    ||| u == 0x1680
    ||| 0x2000 <= u <= 0x200A
    ||| u == 0x2028
    ||| u == 0x2029
    ||| u == 0x202F
    ||| u == 0x205F
    ||| u == 0x3000
}

fn white_space(c: char) -> (b: bool)
    ensures
        b == is_white_space(c),
{
    let u = c as u32;
    (0x09 <= u && u <= 0x0D) || u == 0x20 || u == 0x85 || u == 0xA0 || u == 0x1680 || (0x2000 <= u
        && u <= 0x200A) || u == 0x2028 || u == 0x2029 || u == 0x202F || u == 0x205F || u == 0x3000
}

/// `s` without its leading white space.
pub open spec fn trim_start(s: Seq<char>) -> Seq<char>
    decreases s.len(),
{
    if s.len() > 0 && is_white_space(s[0]) {
        trim_start(s.drop_first())
    } else {
        s
    }
}

/// `s` without its trailing white space.
pub open spec fn trim_end(s: Seq<char>) -> Seq<char>
    decreases s.len(),
{
    if s.len() > 0 && is_white_space(s.last()) {
        trim_end(s.drop_last())
    } else {
        s
    }
}

/// `s` without white space at either end (`str::trim`).
pub open spec fn trim(s: Seq<char>) -> Seq<char> {
    trim_end(trim_start(s))
}

/// `s@[start..end]` without white space at either end.
pub(crate) fn trimmed_range(s: &Vec<char>, start: usize, end: usize) -> (r: (usize, usize))
    requires
        start <= end <= s.len(),
    ensures
        start <= r.0 <= r.1 <= end,
        s@.subrange(r.0 as int, r.1 as int) == trim(s@.subrange(start as int, end as int)),
{
    let ghost whole = s@.subrange(start as int, end as int);
    let mut i = start;
    while i < end && white_space(s[i])
        invariant
            start <= i <= end <= s.len(),
            whole == s@.subrange(start as int, end as int),
            trim_start(s@.subrange(i as int, end as int)) == trim_start(whole),
        decreases end - i,
    {
        assert(s@.subrange(i as int, end as int).drop_first() =~= s@.subrange(i + 1, end as int));
        i = i + 1;
    }
    let mut j = end;
    while j > i && white_space(s[j - 1])
        invariant
            start <= i <= j <= end <= s.len(),
            trim_start(whole) == s@.subrange(i as int, end as int),
            trim_end(s@.subrange(i as int, j as int)) == trim(whole),
        decreases j - i,
    {
        assert(s@.subrange(i as int, j as int).drop_last() =~= s@.subrange(i as int, j - 1));
        j = j - 1;
    }
    (i, j)
}

pub open spec fn is_digit(c: char) -> bool {
    '0' <= c <= '9'
}

/// The number that the decimal digits `s` spell.
pub open spec fn digits_value(s: Seq<char>) -> nat
    decreases s.len(),
{
    if s.len() == 0 {
        0
    } else {
        digits_value(s.drop_last()) * 10 + (s.last() as nat - '0' as nat) as nat
    }
}

/// `s` without the one `+` that may lead it.
pub open spec fn unsigned_digits(s: Seq<char>) -> Seq<char> {
    if s.len() > 0 && s[0] == '+' {
        s.drop_first()
    } else {
        s
    }
}

pub open spec fn all_digits(s: Seq<char>) -> bool {
    forall|i: int| 0 <= i < s.len() ==> is_digit(#[trigger] s[i])
}

/// What `u32::from_str` gives: an optional `+`, then one or more decimal
/// digits and nothing else, whose value fits in a `u32`.
pub open spec fn parse_u32(s: Seq<char>) -> Option<u32> {
    let digits = unsigned_digits(s);
    if digits.len() > 0 && all_digits(digits) && digits_value(digits) <= u32::MAX {
        Some(digits_value(digits) as u32)
    } else {
        None
    }
}

/// Appending digits never makes the value smaller.
proof fn lemma_digits_value_grows(s: Seq<char>, k: int)
    requires
        0 <= k <= s.len(),
        all_digits(s),
    ensures
        digits_value(s.take(k)) <= digits_value(s),
    decreases s.len() - k,
{
    if k < s.len() {
        lemma_digits_value_grows(s, k + 1);
        assert(s.take(k + 1).drop_last() =~= s.take(k));
        assert(is_digit(s[k]));
    } else {
        assert(s.take(k) =~= s);
    }
}

/// `u32::from_str` on `s@[start..end]`.
fn parse_u32_range(s: &Vec<char>, start: usize, end: usize) -> (r: Option<u32>)
    requires
        start <= end <= s.len(),
    ensures
        r == parse_u32(s@.subrange(start as int, end as int)),
{
    let ghost text = s@.subrange(start as int, end as int);
    let mut i = start;
    if i < end && s[i] == '+' {
        i = i + 1;
    }
    let ghost digits = s@.subrange(i as int, end as int);
    assert(digits == unsigned_digits(text));
    if i == end {
        return None;
    }
    let mut value: u64 = 0;
    let mut k = i;
    while k < end
        invariant
            start <= i < end <= s.len(),
            i <= k <= end,
            digits == s@.subrange(i as int, end as int),
            text == s@.subrange(start as int, end as int),
            digits == unsigned_digits(text),
            forall|m: int| i <= m < k ==> is_digit(#[trigger] s@[m]),
            value == digits_value(s@.subrange(i as int, k as int)),
            value <= u32::MAX,
        decreases end - k,
    {
        let c = s[k];
        if c < '0' || c > '9' {
            proof {
                assert(!is_digit(digits[k - i]));
                assert(!all_digits(digits));
            }
            return None;
        }
        let ghost before = s@.subrange(i as int, k as int);
        assert(s@.subrange(i as int, k + 1).drop_last() =~= before);
        let d = (c as u32 - '0' as u32) as u64;
        value = value * 10 + d;
        assert(value == digits_value(s@.subrange(i as int, k + 1)));
        if value > 0xFFFF_FFFF {
            proof {
                if all_digits(digits) {
                    lemma_digits_value_grows(digits, k + 1 - i);
                    assert(digits.take(k + 1 - i) =~= s@.subrange(i as int, k + 1));
                }
            }
            return None;
        }
        k = k + 1;
    }
    assert(s@.subrange(i as int, k as int) =~= digits);
    Some(value as u32)
}

/// A word as plain values: its text, then left, top, width and height.
pub open spec fn word_view(w: OcrWord) -> (Seq<char>, u32, u32, u32, u32) {
    (w.text@, w.x, w.y, w.w, w.h)
}

/// A word row of Tesseract's TSV output: at least twelve tab-separated
/// fields, the twelfth (the text) not blank once trimmed, and the seventh
/// to tenth (left, top, width, height) each a `u32`.
pub open spec fn tsv_word(line: Seq<char>) -> Option<(Seq<char>, u32, u32, u32, u32)> {
    let fields = split_on(line, '\t');
    if fields.len() < 12 || trim(fields[11]).len() == 0 {
        None
    } else {
        match (parse_u32(fields[6]), parse_u32(fields[7]), parse_u32(fields[8]), parse_u32(fields[9])) {
            (Some(x), Some(y), Some(w), Some(h)) => Some((trim(fields[11]), x, y, w, h)),
            _ => None,
        }
    }
}

/// The words of Tesseract's TSV output: each line after the header line
/// that is a word row, in order. Lines end at `\n`; a `\r` before it is
/// white space, which the fields that are read never keep.
pub open spec fn tsv_words(tsv: Seq<char>) -> Seq<(Seq<char>, u32, u32, u32, u32)> {
    split_on(tsv, '\n').drop_first().filter_map(|line: Seq<char>| tsv_word(line))
}

/// The word of one TSV line, if it is a word row.
fn parse_tsv_line(line: &Vec<char>) -> (r: Option<OcrWord>)
    ensures
        match r {
            Some(w) => tsv_word(line@) == Some(word_view(w)),
            None => tsv_word(line@) is None,
        },
{
    let fields = split_chars(line, '\t');
    proof {
        assert(fields@.len() == split_on(line@, '\t').len());
    }
    if fields.len() < 12 {
        return None;
    }
    let ghost views = fields@.map_values(|p: Vec<char>| p@);
    assert(views[11] == fields[11]@);
    let (a, b) = trimmed_range(&fields[11], 0, fields[11].len());
    assert(fields[11]@.subrange(0, fields[11]@.len() as int) =~= fields[11]@);
    if a == b {
        return None;
    }
    assert(views[6] == fields[6]@ && views[7] == fields[7]@);
    assert(views[8] == fields[8]@ && views[9] == fields[9]@);
    assert(fields[6]@.subrange(0, fields[6]@.len() as int) =~= fields[6]@);
    assert(fields[7]@.subrange(0, fields[7]@.len() as int) =~= fields[7]@);
    assert(fields[8]@.subrange(0, fields[8]@.len() as int) =~= fields[8]@);
    assert(fields[9]@.subrange(0, fields[9]@.len() as int) =~= fields[9]@);
    let x = parse_u32_range(&fields[6], 0, fields[6].len());
    let y = parse_u32_range(&fields[7], 0, fields[7].len());
    let w = parse_u32_range(&fields[8], 0, fields[8].len());
    let h = parse_u32_range(&fields[9], 0, fields[9].len());
    match (x, y, w, h) {
        (Some(x), Some(y), Some(w), Some(h)) => {
            let text = string_of_range(&fields[11], a, b);
            Some(OcrWord { text, x, y, w, h })
        },
        _ => None,
    }
}

/// The words that Tesseract reports in its TSV output `tsv`.
pub fn parse_tsv_words(tsv: &str) -> (r: Vec<OcrWord>)
    ensures
        r@.map_values(|w: OcrWord| word_view(w)) == tsv_words(tsv@),
{
    let chars = chars_of(tsv);
    let lines = split_chars(&chars, '\n');
    let ghost rows = lines@.map_values(|p: Vec<char>| p@).drop_first();
    let ghost f = |line: Seq<char>| tsv_word(line);
    proof {
        lemma_split_on_len(chars@, '\n');
    }
    let mut words: Vec<OcrWord> = Vec::new();
    let mut i: usize = 1;
    while i < lines.len()
        invariant
            1 <= i <= lines.len(),
            lines@.len() == rows.len() + 1,
            rows == lines@.map_values(|p: Vec<char>| p@).drop_first(),
            f == (|line: Seq<char>| tsv_word(line)),
            words@.map_values(|w: OcrWord| word_view(w)) == rows.take(i - 1).filter_map(f),
        decreases lines.len() - i,
    {
        proof {
            rows.lemma_filter_map_take_succ(f, i - 1);
            assert(rows[i - 1] == lines[i as int]@);
        }
        let found = parse_tsv_line(&lines[i]);
        assert(f(rows[i - 1]) == tsv_word(lines[i as int]@));
        match found {
            Some(word) => {
                let ghost before = words@;
                words.push(word);
                assert(words@.map_values(|w: OcrWord| word_view(w)) =~= before.map_values(
                    |w: OcrWord| word_view(w),
                ) + seq![word_view(word)]);
            },
            None => {},
        }
        i = i + 1;
    }
    assert(rows.take(rows.len() as int) =~= rows);
    words
}

/// The lines `ls`, each trimmed, the blank ones left out.
pub open spec fn kept_lines(ls: Seq<Seq<char>>) -> Seq<Seq<char>> {
    ls.filter_map(|l: Seq<char>| if trim(l).len() > 0 { Some(trim(l)) } else { None })
}

/// The pieces `ws` joined into one line, a space between each two.
pub open spec fn join_spaced(ws: Seq<Seq<char>>) -> Seq<char>
    decreases ws.len(),
{
    if ws.len() == 0 {
        Seq::empty()
    } else if ws.len() == 1 {
        ws[0]
    } else {
        join_spaced(ws.drop_last()) + seq![' '] + ws.last()
    }
}

/// Typographic quotes and dashes become their ASCII forms, a no-break
/// space a plain one; every other character stays.
pub open spec fn plain_char(c: char) -> char {
    if c == '\u{2019}' || c == '\u{2018}' {
        '\''
    } else if c == '\u{2013}' || c == '\u{2014}' {
        '-'
    } else if c == '\u{00A0}' {
        ' '
    } else {
        c
    }
}

fn plain(c: char) -> (r: char)
    ensures
        r == plain_char(c),
{
    match c {
        '\u{2019}' | '\u{2018}' => '\'',
        '\u{2013}' | '\u{2014}' => '-',
        '\u{00A0}' => ' ',
        _ => c,
    }
}

/// Recognised text as one line: carriage returns dropped, every line
/// trimmed, blank lines left out, the rest joined with single spaces,
/// typographic characters made plain, and the whole trimmed.
pub open spec fn normalized(text: Seq<char>) -> Seq<char> {
    let cleaned = text.filter(|c: char| c != '\r');
    trim(join_spaced(kept_lines(split_on(cleaned, '\n'))).map_values(|c: char| plain_char(c)))
}

/// `s` without its carriage returns.
fn without_carriage_returns(s: &Vec<char>) -> (r: Vec<char>)
    ensures
        r@ == s@.filter(|c: char| c != '\r'),
{
    let mut out: Vec<char> = Vec::new();
    let mut i: usize = 0;
    while i < s.len()
        invariant
            0 <= i <= s.len(),
            out@ == s@.take(i as int).filter(|c: char| c != '\r'),
        decreases s.len() - i,
    {
        proof {
            reveal_with_fuel(Seq::filter, 1);
            assert(s@.take(i + 1).drop_last() =~= s@.take(i as int));
        }
        if s[i] != '\r' {
            out.push(s[i]);
        }
        i = i + 1;
    }
    assert(s@.take(s.len() as int) =~= s@);
    out
}

/// Recognised text as a single line (see `normalized`).
pub fn normalize_text(text: &str) -> (r: String)
    ensures
        r@ == normalized(text@),
{
    let chars = chars_of(text);
    let cleaned = without_carriage_returns(&chars);
    let lines = split_chars(&cleaned, '\n');
    let ghost views = lines@.map_values(|p: Vec<char>| p@);
    let ghost keep = |l: Seq<char>| if trim(l).len() > 0 { Some(trim(l)) } else { None };
    let mut joined: Vec<char> = Vec::new();
    let mut any = false;
    let mut i: usize = 0;
    while i < lines.len()
        invariant
            0 <= i <= lines.len(),
            views == lines@.map_values(|p: Vec<char>| p@),
            keep == (|l: Seq<char>| if trim(l).len() > 0 { Some(trim(l)) } else { None }),
            joined@ == join_spaced(views.take(i as int).filter_map(keep)),
            any == (views.take(i as int).filter_map(keep).len() > 0),
        decreases lines.len() - i,
    {
        proof {
            views.lemma_filter_map_take_succ(keep, i as int);
            assert(views[i as int] == lines[i as int]@);
        }
        let line = &lines[i];
        let (a, b) = trimmed_range(line, 0, line.len());
        assert(line@.subrange(0, line@.len() as int) =~= line@);
        if a < b {
            let ghost before = joined@;
            let ghost kept = views.take(i as int).filter_map(keep);
            if any {
                joined.push(' ');
            }
            let mut k = a;
            while k < b
                invariant
                    a <= k <= b <= line.len(),
                    joined@ == (if any { before + seq![' '] } else { before }) + line@.subrange(a as int, k as int),
                decreases b - k,
            {
                joined.push(line[k]);
                assert(line@.subrange(a as int, k + 1) =~= line@.subrange(a as int, k as int).push(line[k as int]));
                k = k + 1;
            }
            proof {
                let t = line@.subrange(a as int, b as int);
                assert(views.take(i + 1).filter_map(keep) =~= kept.push(t));
                assert(kept.push(t).drop_last() =~= kept);
                if any {
                    assert(joined@ =~= join_spaced(kept) + seq![' '] + t);
                } else {
                    assert(joined@ =~= t);
                }
            }
            any = true;
        }
        i = i + 1;
    }
    assert(views.take(lines.len() as int) =~= views);
    let mut mapped: Vec<char> = Vec::new();
    let mut j: usize = 0;
    while j < joined.len()
        invariant
            0 <= j <= joined.len(),
            mapped@ == joined@.take(j as int).map_values(|c: char| plain_char(c)),
        decreases joined.len() - j,
    {
        mapped.push(plain(joined[j]));
        assert(mapped@ =~= joined@.take(j + 1).map_values(|c: char| plain_char(c)));
        j = j + 1;
    }
    assert(joined@.take(joined.len() as int) =~= joined@);
    let (a, b) = trimmed_range(&mapped, 0, mapped.len());
    assert(mapped@.subrange(0, mapped@.len() as int) =~= mapped@);
    string_of_range(&mapped, a, b)
}

} // verus!
