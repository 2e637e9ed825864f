//! The filter pipeline: named, pure text transforms applied to a field's
//! value — stripping HTML, clickable hints, type-in answers, and the
//! furigana/ruby conversions. Unknown filter names pass the content
//! through unchanged.
use crate::text::{
    chars_to_string, dec_str, find_char, find_char_from, is_match_at, lemma_find_char,
    lemma_match_translate, lemma_skip_skip, name_is, push_range, push_str_chars, push_u64_dec,
    starts_with_at, str_to_chars,
};
use vstd::prelude::*;

verus! {

broadcast use vstd::string::group_string_axioms;

/// `s` with every occurrence of `pat` replaced by `rep`, scanning left to
/// right past each replacement; `s` itself when `pat` is empty.
pub open spec fn spec_replace_all(s: Seq<char>, pat: Seq<char>, rep: Seq<char>) -> Seq<char>
    decreases s.len(),
{
    if pat.len() == 0 || s.len() == 0 {
        s
    } else if is_match_at(s, pat, 0) {
        rep + spec_replace_all(s.skip(pat.len() as int), pat, rep)
    } else {
        seq![s[0]] + spec_replace_all(s.skip(1), pat, rep)
    }
}

/// Replaces every occurrence of `pat` in `s` by `rep`.
pub fn replace_all(s: &[char], pat: &[char], rep: &[char]) -> (r: Vec<char>)
    ensures
        r@ == spec_replace_all(s@, pat@, rep@),
{
    let mut out: Vec<char> = Vec::new();
    let mut i: usize = 0;
    proof {
        assert(s@.skip(0) =~= s@);
        assert(Seq::<char>::empty() + spec_replace_all(s@, pat@, rep@) =~= spec_replace_all(
            s@,
            pat@,
            rep@,
        ));
    }
    while i < s.len()
        invariant
            i <= s@.len(),
            spec_replace_all(s@, pat@, rep@) == out@ + spec_replace_all(
                s@.skip(i as int),
                pat@,
                rep@,
            ),
        decreases s@.len() - i,
    {
        let ghost t = s@.skip(i as int);
        let ghost out0 = out@;
        if pat.len() > 0 && starts_with_at(s, i, pat) {
            proof {
                lemma_match_translate(s@, pat@, i as int);
                assert(is_match_at(t, pat@, 0));
                lemma_skip_skip(s@, i as int, pat@.len() as int);
            }
            out.extend_from_slice(rep);
            proof {
                let rest = spec_replace_all(s@.skip(i + pat@.len()), pat@, rep@);
                assert(spec_replace_all(t, pat@, rep@) == rep@ + rest);
                assert(out@ =~= out0 + rep@);
                assert(out0 + (rep@ + rest) =~= out@ + rest);
            }
            i += pat.len();
        } else {
            out.push(s[i]);
            proof {
                if pat@.len() > 0 {
                    lemma_match_translate(s@, pat@, i as int);
                    assert(!is_match_at(t, pat@, 0));
                }
                lemma_skip_skip(s@, i as int, 1);
                let rest = spec_replace_all(s@.skip(i + 1), pat@, rep@);
                assert(spec_replace_all(t, pat@, rep@) == seq![t[0]] + rest);
                assert(t[0] == s@[i as int]);
                assert(out@ =~= out0 + seq![s@[i as int]]);
                assert(out0 + (seq![s@[i as int]] + rest) =~= out@ + rest);
            }
            i += 1;
        }
    }
    proof {
        assert(s@.skip(s@.len() as int) =~= Seq::<char>::empty());
        assert(out@ + Seq::<char>::empty() =~= out@);
    }
    out
}

/// Where the HTML tag standing at the head of `s` ends: the position of the
/// first `>`, where `s` starts with `<` and at least one character stands
/// between the braces.
pub open spec fn tag_end(s: Seq<char>) -> Option<int> {
    if s.len() == 0 || s[0] != '<' {
        None
    } else {
        match find_char(s, '>') {
            Some(j) => if j >= 2 {
                Some(j)
            } else {
                None
            },
            None => None,
        }
    }
}

/// `s` with every HTML tag — a `<`, one or more characters other than `>`,
/// then `>` — removed.
pub open spec fn strip_tags(s: Seq<char>) -> Seq<char>
    decreases s.len(),
    via strip_tags_decreases
{
    if s.len() == 0 {
        Seq::empty()
    } else {
        match tag_end(s) {
            Some(j) => strip_tags(s.skip(j + 1)),
            None => seq![s[0]] + strip_tags(s.skip(1)),
        }
    }
}

#[via_fn]
proof fn strip_tags_decreases(s: Seq<char>) {
    if s.len() > 0 && s[0] == '<' {
        lemma_find_char(s, '>');
    }
}

/// Removes every HTML tag from the characters of `s`.
fn strip_tags_exec(s: &[char]) -> (r: Vec<char>)
    ensures
        r@ == strip_tags(s@),
{
    let mut out: Vec<char> = Vec::new();
    let mut i: usize = 0;
    proof {
        assert(s@.skip(0) =~= s@);
        assert(Seq::<char>::empty() + strip_tags(s@) =~= strip_tags(s@));
    }
    while i < s.len()
        invariant
            i <= s@.len(),
            strip_tags(s@) == out@ + strip_tags(s@.skip(i as int)),
        decreases s@.len() - i,
    {
        let ghost t = s@.skip(i as int);
        let ghost out0 = out@;
        let mut consumed: usize = 1;
        let mut tag: bool = false;
        if s[i] == '<' {
            match find_char_from(s, i, '>') {
                Some(j) => {
                    if j - i >= 2 {
                        tag = true;
                        consumed = j + 1 - i;
                        proof {
                            assert(tag_end(t) == Some(j - i));
                        }
                    } else {
                        proof {
                            assert(tag_end(t) is None);
                        }
                    }
                },
                None => {
                    proof {
                        assert(tag_end(t) is None);
                    }
                },
            }
        } else {
            proof {
                assert(t[0] != '<');
                assert(tag_end(t) is None);
            }
        }
        if !tag {
            out.push(s[i]);
        }
        proof {
            lemma_skip_skip(s@, i as int, consumed as int);
            let rest = strip_tags(s@.skip(i + consumed));
            if tag {
                assert(strip_tags(t) == rest);
            } else {
                assert(strip_tags(t) == seq![t[0]] + rest);
                assert(t[0] == s@[i as int]);
                assert(out@ =~= out0 + seq![s@[i as int]]);
                assert(out0 + (seq![s@[i as int]] + rest) =~= out@ + rest);
            }
        }
        i += consumed;
    }
    proof {
        assert(s@.skip(s@.len() as int) =~= Seq::<char>::empty());
        assert(out@ + Seq::<char>::empty() =~= out@);
    }
    out
}

/// What the `text` filter yields: line-break tags normalized to newlines,
/// then every remaining HTML tag stripped.
pub open spec fn spec_filter_text(s: Seq<char>) -> Seq<char> {
    strip_tags(
        spec_replace_all(
            spec_replace_all(
                spec_replace_all(spec_replace_all(s, "<br>"@, "\n"@), "<br/>"@, "\n"@),
                "<br />"@,
                "\n"@,
            ),
            "</br>"@,
            "\n"@,
        ),
    )
}

/// The `text` filter: normalizes `<br>`, `<br/>`, `<br />` and `</br>` to
/// newlines, then strips all remaining HTML tags.
pub fn filter_text(content: &str) -> (r: String)
    ensures
        r@ == spec_filter_text(content@),
{
    let v = str_to_chars(content);
    let b1 = str_to_chars("<br>");
    let b2 = str_to_chars("<br/>");
    let b3 = str_to_chars("<br />");
    let b4 = str_to_chars("</br>");
    let nl = str_to_chars("\n");
    let v = replace_all(v.as_slice(), b1.as_slice(), nl.as_slice());
    let v = replace_all(v.as_slice(), b2.as_slice(), nl.as_slice());
    let v = replace_all(v.as_slice(), b3.as_slice(), nl.as_slice());
    let v = replace_all(v.as_slice(), b4.as_slice(), nl.as_slice());
    let v = strip_tags_exec(v.as_slice());
    chars_to_string(&v)
}

/// Whether `c` is a CJK ideograph — a code point of the Han script: the
/// unified ideograph blocks and their extensions, the compatibility
/// ideographs and their supplement, the radicals blocks, and the
/// ideographic iteration marks and numerals.
pub open spec fn is_cjk(c: char) -> bool {
    let u = c as u32;
    (0x2E80 <= u <= 0x2E99) || (0x2E9B <= u <= 0x2EF3) || (0x2F00 <= u <= 0x2FD5) || u == 0x3005
        || u == 0x3007 || (0x3021 <= u <= 0x3029) || (0x3038 <= u <= 0x303B) || (0x3400 <= u
        <= 0x4DBF) || (0x4E00 <= u <= 0x9FFF) || (0xF900 <= u <= 0xFA6D) || (0xFA70 <= u
        <= 0xFAD9) || (0x20000 <= u <= 0x2A6DF) || (0x2A700 <= u <= 0x2B739) || (0x2B740 <= u
        <= 0x2B81D) || (0x2B820 <= u <= 0x2CEA1) || (0x2CEB0 <= u <= 0x2EBE0) || (0x2EBF0 <= u
        <= 0x2EE5D) || (0x2F800 <= u <= 0x2FA1D) || (0x30000 <= u <= 0x3134A) || (0x31350 <= u
        <= 0x323AF)
}

/// Length of the run of CJK ideographs at the head of `s`.
pub open spec fn cjk_run_len(s: Seq<char>) -> nat
    decreases s.len(),
{
    if s.len() == 0 || !is_cjk(s[0]) {
        0
    } else {
        1 + cjk_run_len(s.skip(1))
    }
}

/// The CJK run at the head of `s` is exactly the maximal CJK prefix.
proof fn lemma_cjk_run_len_eq(t: Seq<char>, m: int)
    requires
        0 <= m <= t.len(),
        forall|j: int| 0 <= j < m ==> is_cjk(t[j]),
        m < t.len() ==> !is_cjk(t[m]),
    ensures
        cjk_run_len(t) == m,
    decreases t.len(),
{
    if m == 0 {
    } else {
        lemma_cjk_run_len_eq(t.skip(1), m - 1);
    }
}

/// The CJK run at the head of `s` is no longer than `s`.
proof fn lemma_cjk_run_len_bound(s: Seq<char>)
    ensures
        cjk_run_len(s) <= s.len(),
    decreases s.len(),
{
    if s.len() == 0 || !is_cjk(s[0]) {
    } else {
        lemma_cjk_run_len_bound(s.skip(1));
    }
}

/// Whether the character is a CJK ideograph of the Han script.
fn cjk_check(c: char) -> (r: bool)
    ensures
        r == is_cjk(c),
{
    let u = c as u32;
    (0x2E80 <= u && u <= 0x2E99) || (0x2E9B <= u && u <= 0x2EF3) || (0x2F00 <= u && u <= 0x2FD5)
        || u == 0x3005 || u == 0x3007 || (0x3021 <= u && u <= 0x3029) || (0x3038 <= u && u
        <= 0x303B) || (0x3400 <= u && u <= 0x4DBF) || (0x4E00 <= u && u <= 0x9FFF) || (0xF900 <= u
        && u <= 0xFA6D) || (0xFA70 <= u && u <= 0xFAD9) || (0x20000 <= u && u <= 0x2A6DF) || (
    0x2A700 <= u && u <= 0x2B739) || (0x2B740 <= u && u <= 0x2B81D) || (0x2B820 <= u && u
        <= 0x2CEA1) || (0x2CEB0 <= u && u <= 0x2EBE0) || (0x2EBF0 <= u && u <= 0x2EE5D) || (0x2F800
        <= u && u <= 0x2FA1D) || (0x30000 <= u && u <= 0x3134A) || (0x31350 <= u && u <= 0x323AF)
}

/// End of the run of CJK ideographs starting at `from`.
fn cjk_run_end(s: &[char], from: usize) -> (r: usize)
    requires
        from <= s@.len(),
    ensures
        from <= r <= s@.len(),
        r - from == cjk_run_len(s@.skip(from as int)),
{
    let mut k: usize = from;
    while k < s.len() && cjk_check(s[k])
        invariant
            from <= k <= s@.len(),
            forall|j: int| from <= j < k ==> is_cjk(s@[j]),
        decreases s@.len() - k,
    {
        k += 1;
    }
    proof {
        let t = s@.skip(from as int);
        assert(forall|j: int| 0 <= j < k - from ==> t[j] == s@[j + from] && is_cjk(t[j]));
        if (k as int) - (from as int) < t.len() {
            assert(t[k - from] == s@[k as int]);
        }
        lemma_cjk_run_len_eq(t, k - from);
    }
    k
}

/// The pieces of an HTML ruby annotation standing at the head of a
/// character sequence: its base text, its reading, and how many characters
/// the whole annotation takes.
pub struct RubyParts {
    pub base: Seq<char>,
    pub reading: Seq<char>,
    pub consumed: int,
}

/// The HTML ruby annotation at the head of `s`, if any: `<ruby>`, a base
/// free of `<`, `<rt>`, a reading free of `<`, then `</rt></ruby>`.
pub open spec fn ruby_at(s: Seq<char>) -> Option<RubyParts> {
    if !is_match_at(s, "<ruby>"@, 0) {
        None
    } else {
        let after = s.skip(6);
        match find_char(after, '<') {
            None => None,
            Some(b) => if !is_match_at(after, "<rt>"@, b) {
                None
            } else {
                let after2 = after.skip(b + 4);
                match find_char(after2, '<') {
                    None => None,
                    Some(r) => if !is_match_at(after2, "</rt></ruby>"@, r) {
                        None
                    } else {
                        Some(
                            RubyParts {
                                base: after.take(b),
                                reading: after2.take(r),
                                consumed: 6 + b + 4 + r + 12,
                            },
                        )
                    },
                }
            },
        }
    }
}

/// A ruby annotation at the head of `s` takes at least 22 and at most all
/// of `s`'s characters.
proof fn lemma_ruby_at_bounds(s: Seq<char>)
    ensures
        match ruby_at(s) {
            Some(p) => 22 <= p.consumed <= s.len(),
            None => true,
        },
{
    reveal_strlit("<ruby>");
    reveal_strlit("<rt>");
    reveal_strlit("</rt></ruby>");
    if is_match_at(s, "<ruby>"@, 0) {
        let after = s.skip(6);
        lemma_find_char(after, '<');
        match find_char(after, '<') {
            None => {},
            Some(b) => {
                if is_match_at(after, "<rt>"@, b) {
                    let after2 = after.skip(b + 4);
                    lemma_find_char(after2, '<');
                }
            },
        }
    }
}

/// What one ruby annotation renders as when stripped: its reading or its
/// base text.
pub open spec fn ruby_render(p: RubyParts, keep_reading: bool) -> Seq<char> {
    if keep_reading {
        p.reading
    } else {
        p.base
    }
}

/// `s` with every HTML ruby annotation replaced by its base text or by its
/// reading; other characters stand unchanged.
pub open spec fn spec_ruby_strip(s: Seq<char>, keep_reading: bool) -> Seq<char>
    decreases s.len(),
    via spec_ruby_strip_decreases
{
    if s.len() == 0 {
        Seq::empty()
    } else {
        match ruby_at(s) {
            Some(p) => ruby_render(p, keep_reading) + spec_ruby_strip(
                s.skip(p.consumed),
                keep_reading,
            ),
            None => seq![s[0]] + spec_ruby_strip(s.skip(1), keep_reading),
        }
    }
}

#[via_fn]
proof fn spec_ruby_strip_decreases(s: Seq<char>, keep_reading: bool) {
    lemma_ruby_at_bounds(s);
}

/// The pieces of a bracket-ruby annotation standing at the head of a
/// character sequence: its base (one or more CJK ideographs), its reading,
/// and how many characters the whole annotation takes.
pub struct BracketParts {
    pub base: Seq<char>,
    pub reading: Seq<char>,
    pub consumed: int,
}

/// The bracket-ruby annotation at the head of `s`, if any: one or more CJK
/// ideographs, `[`, one or more characters free of `]`, then `]`.
pub open spec fn bracket_at(s: Seq<char>) -> Option<BracketParts> {
    let b = cjk_run_len(s) as int;
    if b == 0 {
        None
    } else if !(b < s.len() && s[b] == '[') {
        None
    } else {
        let after = s.skip(b + 1);
        match find_char(after, ']') {
            None => None,
            Some(r) => if r == 0 {
                None
            } else {
                Some(
                    BracketParts {
                        base: s.take(b),
                        reading: after.take(r),
                        consumed: b + 1 + r + 1,
                    },
                )
            },
        }
    }
}

/// A bracket annotation at the head of `s` takes at least 4 and at most
/// all of `s`'s characters.
proof fn lemma_bracket_at_bounds(s: Seq<char>)
    ensures
        match bracket_at(s) {
            Some(p) => 4 <= p.consumed <= s.len(),
            None => true,
        },
{
    lemma_cjk_run_len_bound(s);
    let b = cjk_run_len(s) as int;
    if b >= 1 && b < s.len() && s[b] == '[' {
        lemma_find_char(s.skip(b + 1), ']');
    }
}

/// How a matched ruby annotation is rewritten: to full ruby markup, to the
/// base text alone, or to the reading alone.
pub enum RubyOut {
    Markup,
    Base,
    Reading,
}

/// What one bracket annotation renders as.
pub open spec fn bracket_render(p: BracketParts, mode: RubyOut) -> Seq<char> {
    match mode {
        RubyOut::Markup => "<ruby>"@ + p.base + "<rt>"@ + p.reading + "</rt></ruby>"@,
        RubyOut::Base => p.base,
        RubyOut::Reading => p.reading,
    }
}

/// `s` with every bracket-ruby annotation rewritten by `mode`; other
/// characters stand unchanged.
pub open spec fn spec_bracket_apply(s: Seq<char>, mode: RubyOut) -> Seq<char>
    decreases s.len(),
    via spec_bracket_apply_decreases
{
    if s.len() == 0 {
        Seq::empty()
    } else {
        match bracket_at(s) {
            Some(p) => bracket_render(p, mode) + spec_bracket_apply(s.skip(p.consumed), mode),
            None => seq![s[0]] + spec_bracket_apply(s.skip(1), mode),
        }
    }
}

#[via_fn]
proof fn spec_bracket_apply_decreases(s: Seq<char>, mode: RubyOut) {
    lemma_bracket_at_bounds(s);
}

/// The spans of an HTML ruby annotation standing at position `i` of a
/// character slice.
struct RubySpans {
    base_start: usize,
    base_end: usize,
    read_start: usize,
    read_end: usize,
    end: usize,
}

impl RubySpans {
    /// The annotation these spans carve out of `s` at position `i`.
    spec fn as_parts(self, s: Seq<char>, i: int) -> RubyParts {
        RubyParts {
            base: s.subrange(self.base_start as int, self.base_end as int),
            reading: s.subrange(self.read_start as int, self.read_end as int),
            consumed: self.end - i,
        }
    }

    spec fn wf(self, s: Seq<char>, i: int) -> bool {
        &&& i + 6 == self.base_start
        &&& self.base_start <= self.base_end
        &&& self.base_end + 4 == self.read_start
        &&& self.read_start <= self.read_end
        &&& self.read_end + 12 == self.end
        &&& self.end <= s.len()
    }
}

/// Decides whether an HTML ruby annotation stands at position `i` of `s`,
/// and where its parts lie.
fn ruby_spans_at(s: &[char], i: usize) -> (r: Option<RubySpans>)
    requires
        i <= s@.len(),
    ensures
        match r {
            Some(k) => k.wf(s@, i as int) && ruby_at(s@.skip(i as int)) == Some(
                k.as_parts(s@, i as int),
            ),
            None => ruby_at(s@.skip(i as int)) is None,
        },
{
    let n = s.len();
    let ghost t = s@.skip(i as int);
    let open_tag = str_to_chars("<ruby>");
    proof {
        reveal_strlit("<ruby>");
        lemma_match_translate(s@, "<ruby>"@, i as int);
    }
    if !starts_with_at(s, i, open_tag.as_slice()) {
        return None;
    }
    proof {
        reveal_strlit("<ruby>");
        assert("<ruby>"@.len() == 6);
        assert(i + 6 <= s@.len());
    }
    let base_start = i + 6;
    let ghost after = t.skip(6);
    proof {
        lemma_skip_skip(s@, i as int, 6);
    }
    let base_end = match find_char_from(s, base_start, '<') {
        Some(b) => b,
        None => {
            return None;
        },
    };
    proof {
        assert(find_char(after, '<') == Some(base_end - base_start));
    }
    let rt_tag = str_to_chars("<rt>");
    proof {
        reveal_strlit("<rt>");
        lemma_match_translate(s@, "<rt>"@, base_start as int);
    }
    if !starts_with_at(s, base_end, rt_tag.as_slice()) {
        proof {
            assert(!is_match_at(after, "<rt>"@, base_end - base_start));
        }
        return None;
    }
    proof {
        assert(is_match_at(after, "<rt>"@, base_end - base_start));
        reveal_strlit("<rt>");
        assert("<rt>"@.len() == 4);
        assert(is_match_at(s@, "<rt>"@, base_end as int));
        assert(base_end + 4 <= s@.len());
    }
    let read_start = base_end + 4;
    let ghost after2 = after.skip(base_end - base_start + 4);
    proof {
        lemma_skip_skip(s@, base_start as int, base_end - base_start + 4);
        assert(after.skip(base_end - base_start + 4) == s@.skip(read_start as int));
    }
    let read_end = match find_char_from(s, read_start, '<') {
        Some(rr) => rr,
        None => {
            return None;
        },
    };
    proof {
        assert(find_char(after2, '<') == Some(read_end - read_start));
    }
    let close_tag = str_to_chars("</rt></ruby>");
    proof {
        reveal_strlit("</rt></ruby>");
        lemma_match_translate(s@, "</rt></ruby>"@, read_start as int);
    }
    if !starts_with_at(s, read_end, close_tag.as_slice()) {
        proof {
            assert(!is_match_at(after2, "</rt></ruby>"@, read_end - read_start));
        }
        return None;
    }
    proof {
        assert(is_match_at(after2, "</rt></ruby>"@, read_end - read_start));
    }
    let k = RubySpans { base_start, base_end, read_start, read_end, end: read_end + 12 };
    proof {
        assert(after.take(base_end - base_start) =~= s@.subrange(
            base_start as int,
            base_end as int,
        ));
        assert(after2.take(read_end - read_start) =~= s@.subrange(
            read_start as int,
            read_end as int,
        ));
        assert(ruby_at(t) == Some(k.as_parts(s@, i as int)));
    }
    Some(k)
}

/// Replaces every HTML ruby annotation in `s` by its base text or reading.
fn ruby_strip_exec(s: &[char], keep_reading: bool) -> (r: Vec<char>)
    ensures
        r@ == spec_ruby_strip(s@, keep_reading),
{
    let mut out: Vec<char> = Vec::new();
    let mut i: usize = 0;
    proof {
        assert(s@.skip(0) =~= s@);
        assert(Seq::<char>::empty() + spec_ruby_strip(s@, keep_reading) =~= spec_ruby_strip(
            s@,
            keep_reading,
        ));
    }
    while i < s.len()
        invariant
            i <= s@.len(),
            spec_ruby_strip(s@, keep_reading) == out@ + spec_ruby_strip(
                s@.skip(i as int),
                keep_reading,
            ),
        decreases s@.len() - i,
    {
        let ghost t = s@.skip(i as int);
        let ghost out0 = out@;
        match ruby_spans_at(s, i) {
            Some(k) => {
                let ghost p = k.as_parts(s@, i as int);
                if keep_reading {
                    push_range(&mut out, s, k.read_start, k.read_end);
                } else {
                    push_range(&mut out, s, k.base_start, k.base_end);
                }
                proof {
                    lemma_skip_skip(s@, i as int, p.consumed);
                    let rest = spec_ruby_strip(s@.skip(i + p.consumed), keep_reading);
                    assert(spec_ruby_strip(t, keep_reading) == ruby_render(p, keep_reading)
                        + rest);
                    assert(out@ =~= out0 + ruby_render(p, keep_reading));
                    assert(out0 + (ruby_render(p, keep_reading) + rest) =~= out@ + rest);
                }
                i = k.end;
            },
            None => {
                out.push(s[i]);
                proof {
                    lemma_skip_skip(s@, i as int, 1);
                    let rest = spec_ruby_strip(s@.skip(i + 1), keep_reading);
                    assert(spec_ruby_strip(t, keep_reading) == seq![t[0]] + rest);
                    assert(t[0] == s@[i as int]);
                    assert(out@ =~= out0 + seq![s@[i as int]]);
                    assert(out0 + (seq![s@[i as int]] + rest) =~= out@ + rest);
                }
                i += 1;
            },
        }
    }
    proof {
        assert(s@.skip(s@.len() as int) =~= Seq::<char>::empty());
        assert(out@ + Seq::<char>::empty() =~= out@);
    }
    out
}

/// The spans of a bracket-ruby annotation standing at position `i` of a
/// character slice.
struct BracketSpans {
    base_end: usize,
    read_end: usize,
    end: usize,
}

impl BracketSpans {
    /// The annotation these spans carve out of `s` at position `i`.
    spec fn as_parts(self, s: Seq<char>, i: int) -> BracketParts {
        BracketParts {
            base: s.subrange(i, self.base_end as int),
            reading: s.subrange(self.base_end + 1, self.read_end as int),
            consumed: self.end - i,
        }
    }

    spec fn wf(self, s: Seq<char>, i: int) -> bool {
        &&& i < self.base_end
        &&& self.base_end + 1 < self.read_end
        &&& self.read_end + 1 == self.end
        &&& self.end <= s.len()
    }
}

/// Decides whether a bracket-ruby annotation stands at position `i` of
/// `s`, and where its parts lie.
fn bracket_spans_at(s: &[char], i: usize) -> (r: Option<BracketSpans>)
    requires
        i <= s@.len(),
    ensures
        match r {
            Some(k) => k.wf(s@, i as int) && bracket_at(s@.skip(i as int)) == Some(
                k.as_parts(s@, i as int),
            ),
            None => bracket_at(s@.skip(i as int)) is None,
        },
{
    let ghost t = s@.skip(i as int);
    let base_end = cjk_run_end(s, i);
    proof {
        assert(cjk_run_len(t) == base_end - i);
    }
    if base_end == i {
        return None;
    }
    if !(base_end < s.len() && s[base_end] == '[') {
        proof {
            if base_end - i < t.len() {
                assert(t[base_end - i] == s@[base_end as int]);
            }
        }
        return None;
    }
    proof {
        assert(t[base_end - i] == '[');
        lemma_skip_skip(s@, i as int, base_end - i + 1);
    }
    let ghost after = t.skip(base_end - i + 1);
    let read_end = match find_char_from(s, base_end + 1, ']') {
        Some(rr) => rr,
        None => {
            return None;
        },
    };
    proof {
        assert(find_char(after, ']') == Some(read_end - (base_end + 1)));
    }
    if read_end == base_end + 1 {
        return None;
    }
    let k = BracketSpans { base_end, read_end, end: read_end + 1 };
    proof {
        assert(t.take(base_end - i) =~= s@.subrange(i as int, base_end as int));
        assert(after.take(read_end - (base_end + 1)) =~= s@.subrange(
            base_end + 1,
            read_end as int,
        ));
        assert(bracket_at(t) == Some(k.as_parts(s@, i as int)));
    }
    Some(k)
}

/// Rewrites every bracket-ruby annotation in `s` by `mode`.
#[verifier::rlimit(60)]
fn bracket_apply_exec(s: &[char], mode: RubyOut) -> (r: Vec<char>)
    ensures
        r@ == spec_bracket_apply(s@, mode),
{
    let mut out: Vec<char> = Vec::new();
    let mut i: usize = 0;
    proof {
        assert(s@.skip(0) =~= s@);
        assert(Seq::<char>::empty() + spec_bracket_apply(s@, mode) =~= spec_bracket_apply(
            s@,
            mode,
        ));
    }
    while i < s.len()
        invariant
            i <= s@.len(),
            spec_bracket_apply(s@, mode) == out@ + spec_bracket_apply(s@.skip(i as int), mode),
        decreases s@.len() - i,
    {
        let ghost t = s@.skip(i as int);
        let ghost out0 = out@;
        match bracket_spans_at(s, i) {
            Some(k) => {
                let ghost p = k.as_parts(s@, i as int);
                match mode {
                    RubyOut::Markup => {
                        push_str_chars(&mut out, "<ruby>");
                        push_range(&mut out, s, i, k.base_end);
                        push_str_chars(&mut out, "<rt>");
                        push_range(&mut out, s, k.base_end + 1, k.read_end);
                        push_str_chars(&mut out, "</rt></ruby>");
                    },
                    RubyOut::Base => {
                        push_range(&mut out, s, i, k.base_end);
                    },
                    RubyOut::Reading => {
                        push_range(&mut out, s, k.base_end + 1, k.read_end);
                    },
                }
                proof {
                    lemma_skip_skip(s@, i as int, p.consumed);
                    let rest = spec_bracket_apply(s@.skip(i + p.consumed), mode);
                    assert(spec_bracket_apply(t, mode) == bracket_render(p, mode) + rest);
                    assert(out@ =~= out0 + bracket_render(p, mode));
                    assert(out0 + (bracket_render(p, mode) + rest) =~= out@ + rest);
                }
                i = k.end;
            },
            None => {
                out.push(s[i]);
                proof {
                    lemma_skip_skip(s@, i as int, 1);
                    let rest = spec_bracket_apply(s@.skip(i + 1), mode);
                    assert(spec_bracket_apply(t, mode) == seq![t[0]] + rest);
                    assert(t[0] == s@[i as int]);
                    assert(out@ =~= out0 + seq![s@[i as int]]);
                    assert(out0 + (seq![s@[i as int]] + rest) =~= out@ + rest);
                }
                i += 1;
            },
        }
    }
    proof {
        assert(s@.skip(s@.len() as int) =~= Seq::<char>::empty());
        assert(out@ + Seq::<char>::empty() =~= out@);
    }
    out
}

/// What the `furigana` filter yields: bracket-ruby annotations turned into
/// HTML ruby markup; existing ruby markup stands unchanged.
pub open spec fn spec_filter_furigana(s: Seq<char>) -> Seq<char> {
    spec_bracket_apply(s, RubyOut::Markup)
}

/// The `furigana` filter: converts `BASE[READING]` bracket-ruby syntax into
/// `<ruby>BASE<rt>READING</rt></ruby>` markup.
pub fn filter_furigana(content: &str) -> (r: String)
    ensures
        r@ == spec_filter_furigana(content@),
{
    let v = str_to_chars(content);
    let v = bracket_apply_exec(v.as_slice(), RubyOut::Markup);
    chars_to_string(&v)
}

/// What the `kanji` filter yields: only the base text of every ruby
/// annotation, HTML markup first, bracket syntax second.
pub open spec fn spec_filter_kanji(s: Seq<char>) -> Seq<char> {
    spec_bracket_apply(spec_ruby_strip(s, false), RubyOut::Base)
}

/// The `kanji` filter: keeps the base text of ruby annotations, dropping
/// the readings.
pub fn filter_kanji(content: &str) -> (r: String)
    ensures
        r@ == spec_filter_kanji(content@),
{
    let v = str_to_chars(content);
    let v = ruby_strip_exec(v.as_slice(), false);
    let v = bracket_apply_exec(v.as_slice(), RubyOut::Base);
    chars_to_string(&v)
}

/// What the `kana` filter yields: only the reading of every ruby
/// annotation, HTML markup first, bracket syntax second.
pub open spec fn spec_filter_kana(s: Seq<char>) -> Seq<char> {
    spec_bracket_apply(spec_ruby_strip(s, true), RubyOut::Reading)
}

/// The `kana` filter: keeps the readings of ruby annotations, dropping the
/// base text.
pub fn filter_kana(content: &str) -> (r: String)
    ensures
        r@ == spec_filter_kana(content@),
{
    let v = str_to_chars(content);
    let v = ruby_strip_exec(v.as_slice(), true);
    let v = bracket_apply_exec(v.as_slice(), RubyOut::Reading);
    chars_to_string(&v)
}

/// Whether `c` is an ASCII letter or digit.
pub open spec fn is_ascii_alnum(c: char) -> bool {
    (97 <= c as u32 <= 122) || (65 <= c as u32 <= 90) || (48 <= c as u32 <= 57)
}

/// The uppercase hexadecimal digit with value `n`.
pub open spec fn hex_digit_char(n: nat) -> char {
    if n == 0 {
        '0'
    } else if n == 1 {
        '1'
    } else if n == 2 {
        '2'
    } else if n == 3 {
        '3'
    } else if n == 4 {
        '4'
    } else if n == 5 {
        '5'
    } else if n == 6 {
        '6'
    } else if n == 7 {
        '7'
    } else if n == 8 {
        '8'
    } else if n == 9 {
        '9'
    } else if n == 10 {
        'A'
    } else if n == 11 {
        'B'
    } else if n == 12 {
        'C'
    } else if n == 13 {
        'D'
    } else if n == 14 {
        'E'
    } else {
        'F'
    }
}

/// How one character is escaped for an HTML attribute value: the five
/// markup characters become named entities, every other non-alphanumeric
/// byte-sized character becomes a two-digit hex entity, and the rest stand
/// unchanged.
pub open spec fn attr_escaped_char(c: char) -> Seq<char> {
    if c == '"' {
        "&quot;"@
    } else if c == '&' {
        "&amp;"@
    } else if c == '\'' {
        "&#x27;"@
    } else if c == '<' {
        "&lt;"@
    } else if c == '>' {
        "&gt;"@
    } else if (c as u32) < 256 && ((c as u32) > 127 || !is_ascii_alnum(c)) {
        "&#x"@ + seq![
            hex_digit_char((c as u32 / 16) as nat),
            hex_digit_char((c as u32 % 16) as nat),
        ] + ";"@
    } else {
        seq![c]
    }
}

/// `s` escaped for use as an HTML attribute value, character by character.
pub open spec fn attr_escaped(s: Seq<char>) -> Seq<char>
    decreases s.len(),
{
    if s.len() == 0 {
        Seq::empty()
    } else {
        attr_escaped_char(s[0]) + attr_escaped(s.skip(1))
    }
}

/// No escaped character expands to text holding a raw `<`, `>`, `"` or `'`.
proof fn lemma_attr_escaped_char_no_specials(c: char)
    ensures
        forall|i: int|
            0 <= i < attr_escaped_char(c).len() ==> attr_escaped_char(c)[i] != '<'
                && attr_escaped_char(c)[i] != '>' && attr_escaped_char(c)[i] != '"'
                && attr_escaped_char(c)[i] != '\'',
{
    reveal_strlit("&quot;");
    reveal_strlit("&amp;");
    reveal_strlit("&#x27;");
    reveal_strlit("&lt;");
    reveal_strlit("&gt;");
    reveal_strlit("&#x");
    reveal_strlit(";");
}

/// An attribute-escaped string holds no raw `<`, `>`, `"` or `'`: each of
/// those characters is turned into an entity, and no escape introduces one.
pub proof fn lemma_attr_escaped_no_specials(s: Seq<char>)
    ensures
        forall|i: int|
            0 <= i < attr_escaped(s).len() ==> attr_escaped(s)[i] != '<' && attr_escaped(s)[i]
                != '>' && attr_escaped(s)[i] != '"' && attr_escaped(s)[i] != '\'',
    decreases s.len(),
{
    if s.len() == 0 {
    } else {
        lemma_attr_escaped_char_no_specials(s[0]);
        lemma_attr_escaped_no_specials(s.skip(1));
        let head = attr_escaped_char(s[0]);
        let tail = attr_escaped(s.skip(1));
        assert forall|i: int| 0 <= i < attr_escaped(s).len() implies attr_escaped(s)[i] != '<'
            && attr_escaped(s)[i] != '>' && attr_escaped(s)[i] != '"' && attr_escaped(s)[i]
            != '\'' by {
            if i < head.len() {
                assert(attr_escaped(s)[i] == head[i]);
            } else {
                assert(attr_escaped(s)[i] == tail[i - head.len()]);
            }
        }
    }
}

/// Escapes a string for use as an HTML attribute value.
///
/// Relies on htmlescape::encode_attribute: `"`, `&`, `'`, `<` and `>`
/// become their named entities, every other non-alphanumeric ASCII
/// character and every character from 128 to 255 becomes an uppercase
/// two-digit hex entity, and all other characters stand unchanged.
#[verifier::external_body]
fn escape_attribute(content: &str) -> (r: String)
    ensures
        r@ == attr_escaped(content@),
{
    htmlescape::encode_attribute(content)
}

/// What the `type` filter yields: a text-input element whose expected
/// answer is the attribute-escaped content.
pub open spec fn spec_filter_type(s: Seq<char>) -> Seq<char> {
    "<input type=\"text\" id=\"typeans\" class=\"type-answer\" data-expected=\""@ + attr_escaped(
        s,
    ) + "\"/>"@
}

/// The `type` filter: wraps the content as the expected-answer payload of
/// a text-input element, attribute-escaping it first.
pub fn filter_type(content: &str) -> (r: String)
    ensures
        r@ == spec_filter_type(content@),
{
    let esc = escape_attribute(content);
    let mut out: Vec<char> = Vec::new();
    push_str_chars(
        &mut out,
        "<input type=\"text\" id=\"typeans\" class=\"type-answer\" data-expected=\"",
    );
    push_str_chars(&mut out, esc.as_str());
    push_str_chars(&mut out, "\"/>");
    proof {
        assert(out@ =~= spec_filter_type(content@));
    }
    chars_to_string(&out)
}

/// The element identifier that the `hint` filter derives from the content.
///
/// Names what the hint wrapper computes with blake3::hash — a pure digest
/// of the content's bytes, its first eight bytes read as a little-endian
/// integer — so the identifier is stable across renders of equal content.
pub uninterp spec fn hash_id_of(s: Seq<char>) -> u64;

/// Hashes the content into the hint element identifier.
///
/// Relies on blake3::hash: a pure function of the input bytes; the
/// identifier is the digest's first eight bytes as a little-endian integer.
#[verifier::external_body]
fn content_hash_id(content: &str) -> (r: u64)
    ensures
        r == hash_id_of(content@),
{
    let h = blake3::hash(content.as_bytes());
    let b = h.as_bytes();
    u64::from_le_bytes([b[0], b[1], b[2], b[3], b[4], b[5], b[6], b[7]])
}

/// What the `hint` filter yields for non-empty content: a toggle link and
/// a hidden container holding the content, both addressed by `id`.
pub open spec fn hint_html(content: Seq<char>, id: u64) -> Seq<char> {
    "<a class=\"hint\" href=\"#\" onclick=\"this.style.display='none';document.getElementById('hint"@
        + dec_str(id as nat)
        + "').style.display='block';return false;\">Show Hint</a><div id=\"hint"@ + dec_str(
        id as nat,
    ) + "\" class=\"hint\" style=\"display:none\">"@ + content + "</div>"@
}

/// What the `hint` filter yields: empty for empty content, else the toggle
/// link and hidden container keyed by the content's hash identifier.
pub open spec fn spec_filter_hint(s: Seq<char>) -> Seq<char> {
    if s.len() == 0 {
        Seq::empty()
    } else {
        hint_html(s, hash_id_of(s))
    }
}

/// The `hint` filter: empty content stays empty; otherwise a clickable
/// toggle revealing the content, addressed by a hash of the content.
#[verifier::rlimit(60)]
pub fn filter_hint(content: &str) -> (r: String)
    ensures
        r@ == spec_filter_hint(content@),
{
    if content.is_empty() {
        return String::new();
    }
    let id = content_hash_id(content);
    let mut out: Vec<char> = Vec::new();
    push_str_chars(
        &mut out,
        "<a class=\"hint\" href=\"#\" onclick=\"this.style.display='none';document.getElementById('hint",
    );
    push_u64_dec(id, &mut out);
    push_str_chars(
        &mut out,
        "').style.display='block';return false;\">Show Hint</a><div id=\"hint",
    );
    push_u64_dec(id, &mut out);
    push_str_chars(&mut out, "\" class=\"hint\" style=\"display:none\">");
    push_str_chars(&mut out, content);
    push_str_chars(&mut out, "</div>");
    proof {
        assert(out@ =~= hint_html(content@, id));
    }
    chars_to_string(&out)
}

/// What the filter pipeline yields for a filter name: the named transform
/// for the six recognized names, the content unchanged for `cloze` (the
/// renderer intercepts that name) and for every unknown name.
pub open spec fn spec_apply_filter(name: Seq<char>, content: Seq<char>) -> Seq<char> {
    if name == "text"@ {
        spec_filter_text(content)
    } else if name == "hint"@ {
        spec_filter_hint(content)
    } else if name == "type"@ {
        spec_filter_type(content)
    } else if name == "furigana"@ {
        spec_filter_furigana(content)
    } else if name == "kanji"@ {
        spec_filter_kanji(content)
    } else if name == "kana"@ {
        spec_filter_kana(content)
    } else {
        content
    }
}

/// Applies the named filter to the content; unrecognized names pass the
/// content through unchanged, never an error.
pub fn apply_filter(filter_name: &str, content: &str) -> (r: String)
    ensures
        r@ == spec_apply_filter(filter_name@, content@),
{
    if name_is(filter_name, "text") {
        filter_text(content)
    } else if name_is(filter_name, "hint") {
        filter_hint(content)
    } else if name_is(filter_name, "type") {
        filter_type(content)
    } else if name_is(filter_name, "furigana") {
        filter_furigana(content)
    } else if name_is(filter_name, "kanji") {
        filter_kanji(content)
    } else if name_is(filter_name, "kana") {
        filter_kana(content)
    } else {
        content.to_owned()
    }
}

} // verus!
