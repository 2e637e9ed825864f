//! The cloze-deletion engine: scans a field's text for markers of the form
//! `{{cN::TEXT}}` or `{{cN::TEXT::HINT}}`, renders each according to the
//! active card ordinal and the question/answer side, and counts how many
//! cards a field implies (the highest ordinal that occurs).
//!
//! An ordinal is a run of ASCII decimal digits; braces around other digit
//! characters are not markers and stand verbatim. A run whose value
//! exceeds the 32-bit range acts as ordinal 0, which no real card carries.
use crate::text::{
    chars_to_string, dec_val, digit_run_end, digit_run_len, find_char, find_char_from, find_sub,
    is_digit, is_match_at, lemma_find_char, lemma_find_sub, lemma_skip_skip, parse_u32_digits,
    push_range, push_str_chars, str_to_chars,
};
use vstd::prelude::*;

verus! {

/// A decomposed cloze marker standing at the head of a character sequence:
/// its ordinal's digits, its text, its optional hint, and how many
/// characters of the sequence the whole marker takes.
pub struct Marker {
    pub ord_digits: Seq<char>,
    pub text: Seq<char>,
    pub hint: Option<Seq<char>>,
    pub consumed: int,
}

/// The cloze marker standing at the head of `s`, if any.
///
/// A marker is `{{c`, one or more ASCII digits, `::`, then a body free of
/// `}`, closed by `}}`. The body splits at its first `::` into text and
/// hint; with no `::` it is all text.
pub open spec fn marker_at(s: Seq<char>) -> Option<Marker> {
    if !(s.len() >= 3 && s[0] == '{' && s[1] == '{' && s[2] == 'c') {
        None
    } else {
        let d = digit_run_len(s.skip(3)) as int;
        if d == 0 {
            None
        } else {
            let rest = s.skip(3 + d);
            if !(rest.len() >= 2 && rest[0] == ':' && rest[1] == ':') {
                None
            } else {
                let body = rest.skip(2);
                match find_char(body, '}') {
                    None => None,
                    Some(p) => if !(p + 1 < body.len() && body[p + 1] == '}') {
                        None
                    } else {
                        let region = body.take(p);
                        let consumed = 3 + d + 2 + p + 2;
                        match find_sub(region, "::"@) {
                            Some(k) => Some(
                                Marker {
                                    ord_digits: s.subrange(3, 3 + d),
                                    text: region.take(k),
                                    hint: Some(region.skip(k + 2)),
                                    consumed,
                                },
                            ),
                            None => Some(
                                Marker {
                                    ord_digits: s.subrange(3, 3 + d),
                                    text: region,
                                    hint: None,
                                    consumed,
                                },
                            ),
                        }
                    },
                }
            }
        }
    }
}

/// A marker at the head of `s` takes at least 8 and at most all of `s`'s
/// characters, and its ordinal digits are digits.
pub proof fn lemma_marker_at_bounds(s: Seq<char>)
    ensures
        match marker_at(s) {
            Some(m) => 8 <= m.consumed <= s.len() && m.ord_digits.len() >= 1 && (forall|j: int|
                0 <= j < m.ord_digits.len() ==> is_digit(m.ord_digits[j])),
            None => true,
        },
{
    if s.len() >= 3 && s[0] == '{' && s[1] == '{' && s[2] == 'c' {
        let d = digit_run_len(s.skip(3)) as int;
        lemma_digit_run_len_bound(s.skip(3));
        if d >= 1 {
            let rest = s.skip(3 + d);
            if rest.len() >= 2 && rest[0] == ':' && rest[1] == ':' {
                let body = rest.skip(2);
                lemma_find_char(body, '}');
                match find_char(body, '}') {
                    None => {},
                    Some(p) => {
                        assert(body.len() == s.len() - 3 - d - 2);
                        assert(forall|j: int|
                            0 <= j < d ==> s.subrange(3, 3 + d)[j] == s.skip(3)[j]);
                    },
                }
            }
        }
    }
}

/// The digit run at the head of `s` is no longer than `s`, and made of digits.
pub proof fn lemma_digit_run_len_bound(s: Seq<char>)
    ensures
        digit_run_len(s) <= s.len(),
        forall|j: int| 0 <= j < digit_run_len(s) ==> is_digit(s[j]),
    decreases s.len(),
{
    if s.len() == 0 || !is_digit(s[0]) {
    } else {
        lemma_digit_run_len_bound(s.skip(1));
        assert(forall|j: int| 1 <= j < digit_run_len(s) ==> s[j] == s.skip(1)[j - 1]);
    }
}

/// The ordinal a marker's digits denote: their decimal value where it fits
/// in `u32`, else 0 (an ordinal no real card carries).
pub open spec fn marker_ordinal(digits: Seq<char>) -> u32 {
    if dec_val(digits) <= u32::MAX {
        dec_val(digits) as u32
    } else {
        0
    }
}

/// The cloze-styled wrapper around `inner`.
pub open spec fn cloze_span(inner: Seq<char>) -> Seq<char> {
    "<span class=\"cloze\">"@ + inner + "</span>"@
}

/// What one marker renders as, for the given active ordinal and side.
///
/// The active marker is masked on the question side — as `[HINT]` when a
/// hint is present, else `[...]` — and revealed, styled, on the answer
/// side. An inactive marker renders as its bare text on either side.
pub open spec fn marker_render(m: Marker, card_ord: u32, is_question: bool) -> Seq<char> {
    if marker_ordinal(m.ord_digits) == card_ord {
        if is_question {
            match m.hint {
                Some(h) => cloze_span("["@ + h + "]"@),
                None => cloze_span("[...]"@),
            }
        } else {
            cloze_span(m.text)
        }
    } else {
        m.text
    }
}

/// The field text with every cloze marker rendered for the given active
/// ordinal and side; characters outside markers stand unchanged.
pub open spec fn spec_render_cloze(s: Seq<char>, card_ord: u32, is_question: bool) -> Seq<char>
    decreases s.len(),
    via spec_render_cloze_decreases
{
    if s.len() == 0 {
        Seq::empty()
    } else {
        match marker_at(s) {
            Some(m) => marker_render(m, card_ord, is_question) + spec_render_cloze(
                s.skip(m.consumed),
                card_ord,
                is_question,
            ),
            None => seq![s[0]] + spec_render_cloze(s.skip(1), card_ord, is_question),
        }
    }
}

#[via_fn]
proof fn spec_render_cloze_decreases(s: Seq<char>, card_ord: u32, is_question: bool) {
    lemma_marker_at_bounds(s);
}

/// The highest ordinal among the markers of `s` whose digits fit in `u32`;
/// 0 where no marker stands.
pub open spec fn spec_max_ordinal(s: Seq<char>) -> u32
    decreases s.len(),
    via spec_max_ordinal_decreases
{
    if s.len() == 0 {
        0u32
    } else {
        match marker_at(s) {
            Some(m) => {
                let rest = spec_max_ordinal(s.skip(m.consumed));
                if dec_val(m.ord_digits) <= u32::MAX && dec_val(m.ord_digits) as u32 > rest {
                    dec_val(m.ord_digits) as u32
                } else {
                    rest
                }
            },
            None => spec_max_ordinal(s.skip(1)),
        }
    }
}

#[via_fn]
proof fn spec_max_ordinal_decreases(s: Seq<char>) {
    lemma_marker_at_bounds(s);
}

/// The spans of a cloze marker standing at position `i` of a character
/// slice: the end of its digit run, its text, its optional hint, and the
/// position just past the closing `}}`.
struct MarkerSpans {
    d_end: usize,
    text_start: usize,
    text_end: usize,
    hint_start: usize,
    has_hint: bool,
    end: usize,
}

impl MarkerSpans {
    /// The marker these spans carve out of `s` at position `i`.
    spec fn as_marker(self, s: Seq<char>, i: int) -> Marker {
        Marker {
            ord_digits: s.subrange(i + 3, self.d_end as int),
            text: s.subrange(self.text_start as int, self.text_end as int),
            hint: if self.has_hint {
                Some(s.subrange(self.hint_start as int, self.end - 2))
            } else {
                None
            },
            consumed: self.end - i,
        }
    }

    spec fn wf(self, s: Seq<char>, i: int) -> bool {
        &&& i + 3 < self.d_end
        &&& self.d_end + 2 == self.text_start
        &&& self.text_start <= self.text_end
        &&& (self.has_hint ==> self.text_end + 2 == self.hint_start && self.hint_start
            <= self.end - 2)
        &&& (!self.has_hint ==> self.text_end == self.end - 2)
        &&& self.end <= s.len()
    }
}

/// Decides whether a cloze marker stands at position `i` of `s`, and where
/// its parts lie.
fn marker_spans_at(s: &[char], i: usize) -> (r: Option<MarkerSpans>)
    requires
        i <= s@.len(),
    ensures
        match r {
            Some(mk) => mk.wf(s@, i as int) && marker_at(s@.skip(i as int)) == Some(
                mk.as_marker(s@, i as int),
            ) && (forall|j: int| i + 3 <= j < mk.d_end ==> is_digit(s@[j])),
            None => marker_at(s@.skip(i as int)) is None,
        },
{
    let ghost t = s@.skip(i as int);
    proof {
        assert(forall|j: int| 0 <= j < t.len() ==> t[j] == s@[i + j]);
    }
    if !(s.len() - i >= 3 && s[i] == '{' && s[i + 1] == '{' && s[i + 2] == 'c') {
        return None;
    }
    let d_end = digit_run_end(s, i + 3);
    proof {
        lemma_skip_skip(s@, i as int, 3);
        lemma_digit_run_same(s@, i + 3);
        assert(digit_run_len(t.skip(3)) == d_end - (i + 3));
    }
    if d_end == i + 3 {
        return None;
    }
    let ghost dd = d_end - (i + 3);
    proof {
        lemma_skip_skip(s@, i as int, 3 + dd);
        assert(t.skip(3 + dd) == s@.skip(i + 3 + dd));
    }
    if !(s.len() - d_end >= 2 && s[d_end] == ':' && s[d_end + 1] == ':') {
        proof {
            let rest = t.skip(3 + dd);
            assert(rest.len() >= 2 ==> rest[0] == s@[d_end as int] && rest[1] == s@[d_end + 1]);
        }
        return None;
    }
    let body_start = d_end + 2;
    let ghost body = t.skip(3 + dd + 2);
    proof {
        lemma_skip_skip(s@, i as int, 3 + dd + 2);
        lemma_skip_skip(s@, 3 + dd + i as int, 2);
        assert(t.skip(3 + dd).skip(2) == body);
    }
    let close = match find_char_from(s, body_start, '}') {
        Some(p) => p,
        None => {
            return None;
        },
    };
    proof {
        assert(find_char(body, '}') == Some(close - body_start));
    }
    if !(s.len() - close >= 2 && s[close + 1] == '}') {
        proof {
            let p = close - body_start;
            if p + 1 < body.len() {
                assert(body[p + 1] == s@[close + 1]);
            }
        }
        return None;
    }
    proof {
        let p = close - body_start;
        assert(body[p + 1] == s@[close + 1]);
        assert(p + 1 < body.len());
    }
    let ghost region = body.take(close - body_start);
    proof {
        assert(forall|j: int|
            0 <= j < region.len() ==> region[j] == s@[body_start + j]);
    }
    // find the first `::` before the closing brace
    proof {
        assert(region =~= s@.subrange(body_start as int, close as int));
    }
    let sep = find_sub_in_range(s, body_start, close);
    match sep {
        Some(k) => {
            proof {
                assert(find_sub(region, "::"@) == Some(k - body_start));
            }
            let mk = MarkerSpans {
                d_end,
                text_start: body_start,
                text_end: k,
                hint_start: k + 2,
                has_hint: true,
                end: close + 2,
            };
            proof {
                assert(region.take(k - body_start) =~= s@.subrange(
                    body_start as int,
                    k as int,
                ));
                assert(region.skip(k - body_start + 2) =~= s@.subrange(k + 2, close as int));
                assert(s@.subrange(i + 3, d_end as int) =~= t.subrange(3, 3 + dd));
                assert(marker_at(t) == Some(mk.as_marker(s@, i as int)));
            }
            Some(mk)
        },
        None => {
            let mk = MarkerSpans {
                d_end,
                text_start: body_start,
                text_end: close,
                hint_start: 0,
                has_hint: false,
                end: close + 2,
            };
            proof {
                assert(find_sub(region, "::"@) is None);
                assert(s@.subrange(i + 3, d_end as int) =~= t.subrange(3, 3 + dd));
                assert(marker_at(t) == Some(mk.as_marker(s@, i as int)));
            }
            Some(mk)
        },
    }
}

/// The digit run of the suffix of `s` at `from` fits within `s`.
proof fn lemma_digit_run_same(s: Seq<char>, from: int)
    requires
        0 <= from <= s.len(),
    ensures
        digit_run_len(s.skip(from)) <= s.len() - from,
    decreases s.len() - from,
{
    lemma_digit_run_len_bound(s.skip(from));
}

/// First occurrence of `::` strictly inside `s[from..to]`, both parts in
/// range, as a position in `s`.
fn find_sub_in_range(s: &[char], from: usize, to: usize) -> (r: Option<usize>)
    requires
        from <= to <= s@.len(),
    ensures
        ({
            let region = s@.subrange(from as int, to as int);
            match r {
                Some(k) => from <= k && k + 2 <= to && find_sub(region, "::"@) == Some(
                    k - from,
                ),
                None => find_sub(region, "::"@) is None,
            }
        }),
{
    let ghost region = s@.subrange(from as int, to as int);
    proof {
        reveal_strlit("::");
    }
    let mut k: usize = from;
    while to - k >= 2
        invariant
            from <= k,
            k <= to <= s@.len(),
            region == s@.subrange(from as int, to as int),
            forall|j: int| 0 <= j < k - from ==> !is_match_at(region, "::"@, j),
        decreases to - k,
    {
        if s[k] == ':' && s[k + 1] == ':' {
            proof {
                lemma_find_sub(region, "::"@);
                assert(region.subrange(k - from, k - from + 2) =~= "::"@) by {
                    reveal_strlit("::");
                    assert(region[k - from] == ':');
                    assert(region[k - from + 1] == ':');
                }
                assert(is_match_at(region, "::"@, k - from));
                match find_sub(region, "::"@) {
                    Some(x) => {
                        if x < k - from {
                            assert(!is_match_at(region, "::"@, x));
                        } else if x > k - from {
                            assert(!is_match_at(region, "::"@, k - from));
                        }
                    },
                    None => {
                        assert(!is_match_at(region, "::"@, k - from));
                    },
                }
            }
            return Some(k);
        }
        proof {
            reveal_strlit("::");
            if is_match_at(region, "::"@, k - from) {
                let sr = region.subrange(k - from, k - from + 2);
                assert(sr == "::"@);
                assert(sr[0] == region[k - from]);
                assert(sr[1] == region[k - from + 1]);
                assert(region[k - from] == s@[k as int]);
                assert(region[k - from + 1] == s@[k + 1]);
                assert(false);
            }
        }
        k += 1;
    }
    proof {
        lemma_find_sub(region, "::"@);
        reveal_strlit("::");
        match find_sub(region, "::"@) {
            Some(x) => {
                assert(is_match_at(region, "::"@, x));
                assert(x + 2 <= region.len());
                assert(x < k - from);
            },
            None => {},
        }
    }
    None
}

/// Renders the cloze markers of `field_content` for the card with ordinal
/// `card_ord`: on the question side the active marker is masked (hint in
/// brackets where present, else `[...]`), on the answer side it is shown
/// styled; inactive markers show their bare text.
#[verifier::rlimit(60)]
pub fn render_cloze(field_content: &str, card_ord: u32, is_question: bool) -> (r: String)
    ensures
        r@ == spec_render_cloze(field_content@, card_ord, is_question),
{
    let s = str_to_chars(field_content);
    let slice = s.as_slice();
    let ghost whole = field_content@;
    let mut out: Vec<char> = Vec::new();
    let mut i: usize = 0;
    proof {
        assert(whole.skip(0) =~= whole);
        assert(Seq::<char>::empty() + spec_render_cloze(whole, card_ord, is_question)
            =~= spec_render_cloze(whole, card_ord, is_question));
    }
    while i < slice.len()
        invariant
            i <= whole.len(),
            slice@ == whole,
            spec_render_cloze(whole, card_ord, is_question) == out@ + spec_render_cloze(
                whole.skip(i as int),
                card_ord,
                is_question,
            ),
        decreases whole.len() - i,
    {
        let ghost t = whole.skip(i as int);
        let ghost out0 = out@;
        match marker_spans_at(slice, i) {
            Some(mk) => {
                let ghost m = mk.as_marker(whole, i as int);
                let ord = match parse_u32_digits(slice, i + 3, mk.d_end) {
                    Some(v) => v,
                    None => 0,
                };
                proof {
                    assert(ord == marker_ordinal(m.ord_digits));
                }
                if ord == card_ord {
                    if is_question {
                        if mk.has_hint {
                            push_str_chars(&mut out, "<span class=\"cloze\">[");
                            push_range(&mut out, slice, mk.hint_start, mk.end - 2);
                            push_str_chars(&mut out, "]</span>");
                            proof {
                                assert("<span class=\"cloze\">["@ =~= "<span class=\"cloze\">"@
                                    + "["@) by {
                                    reveal_strlit("<span class=\"cloze\">[");
                                    reveal_strlit("<span class=\"cloze\">");
                                    reveal_strlit("[");
                                }
                                assert("]</span>"@ =~= "]"@ + "</span>"@) by {
                                    reveal_strlit("]</span>");
                                    reveal_strlit("]");
                                    reveal_strlit("</span>");
                                }
                                assert(marker_render(m, card_ord, is_question) =~= (
                                "<span class=\"cloze\">["@ + m.hint->Some_0) + "]</span>"@);
                            }
                        } else {
                            push_str_chars(&mut out, "<span class=\"cloze\">[...]</span>");
                            proof {
                                assert(marker_render(m, card_ord, is_question)
                                    =~= "<span class=\"cloze\">[...]</span>"@) by {
                                    reveal_strlit("<span class=\"cloze\">[...]</span>");
                                    reveal_strlit("<span class=\"cloze\">");
                                    reveal_strlit("[...]");
                                    reveal_strlit("</span>");
                                }
                            }
                        }
                    } else {
                        push_str_chars(&mut out, "<span class=\"cloze\">");
                        push_range(&mut out, slice, mk.text_start, mk.text_end);
                        push_str_chars(&mut out, "</span>");
                        proof {
                            assert(marker_render(m, card_ord, is_question) =~= (
                            "<span class=\"cloze\">"@ + m.text) + "</span>"@);
                        }
                    }
                } else {
                    push_range(&mut out, slice, mk.text_start, mk.text_end);
                }
                proof {
                    lemma_skip_skip(whole, i as int, m.consumed);
                    let rest = spec_render_cloze(
                        whole.skip(i + m.consumed),
                        card_ord,
                        is_question,
                    );
                    assert(spec_render_cloze(t, card_ord, is_question) == marker_render(
                        m,
                        card_ord,
                        is_question,
                    ) + rest);
                    assert(out@ =~= out0 + marker_render(m, card_ord, is_question));
                    assert(out0 + (marker_render(m, card_ord, is_question) + rest) =~= out@
                        + rest);
                }
                i = mk.end;
            },
            None => {
                out.push(slice[i]);
                proof {
                    lemma_skip_skip(whole, i as int, 1);
                    let rest = spec_render_cloze(whole.skip(i + 1), card_ord, is_question);
                    assert(spec_render_cloze(t, card_ord, is_question) == seq![t[0]] + rest);
                    assert(t[0] == whole[i as int]);
                    assert(out@ =~= out0 + seq![whole[i as int]]);
                    assert(out0 + (seq![whole[i as int]] + rest) =~= out@ + rest);
                }
                i += 1;
            },
        }
    }
    proof {
        assert(whole.skip(whole.len() as int) =~= Seq::<char>::empty());
        assert(out@ + Seq::<char>::empty() =~= out@);
    }
    chars_to_string(&out)
}

/// The highest cloze ordinal in `field_content` — how many cards the field
/// implies; 0 where no marker stands.
pub fn count_cloze_ordinals(field_content: &str) -> (r: u32)
    ensures
        r == spec_max_ordinal(field_content@),
{
    let s = str_to_chars(field_content);
    let slice = s.as_slice();
    let ghost whole = field_content@;
    let mut max_ord: u32 = 0;
    let mut i: usize = 0;
    proof {
        assert(whole.skip(0) =~= whole);
    }
    while i < slice.len()
        invariant
            i <= whole.len(),
            slice@ == whole,
            spec_max_ordinal(whole) == if spec_max_ordinal(whole.skip(i as int)) > max_ord {
                spec_max_ordinal(whole.skip(i as int))
            } else {
                max_ord
            },
        decreases whole.len() - i,
    {
        let ghost t = whole.skip(i as int);
        match marker_spans_at(slice, i) {
            Some(mk) => {
                let ghost m = mk.as_marker(whole, i as int);
                match parse_u32_digits(slice, i + 3, mk.d_end) {
                    Some(v) => {
                        if v > max_ord {
                            max_ord = v;
                        }
                    },
                    None => {},
                }
                proof {
                    lemma_skip_skip(whole, i as int, m.consumed);
                    let rest = spec_max_ordinal(whole.skip(i + m.consumed));
                    assert(spec_max_ordinal(t) == if dec_val(m.ord_digits) <= u32::MAX && dec_val(
                        m.ord_digits,
                    ) as u32 > rest {
                        dec_val(m.ord_digits) as u32
                    } else {
                        rest
                    });
                }
                i = mk.end;
            },
            None => {
                proof {
                    lemma_skip_skip(whole, i as int, 1);
                    assert(spec_max_ordinal(t) == spec_max_ordinal(whole.skip(i + 1)));
                }
                i += 1;
            },
        }
    }
    proof {
        assert(whole.skip(whole.len() as int) =~= Seq::<char>::empty());
    }
    max_ord
}

} // verus!
