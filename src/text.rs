//! File name sanitizing: the character classes it rests on, the cleaning
//! steps and what they guarantee.
use unicode_normalization::UnicodeNormalization;
use vstd::prelude::*;
use vstd::string::*;

verus! {

/// The characters that are refused in a file name on common file systems.
pub open spec fn is_reserved(c: char) -> bool {
    c == '<' || c == '>' || c == ':' || c == '"' || c == '/' || c == '\\' || c == '|' || c == '?'
        || c == '*'
}

/// General category Cc: C0 controls, DEL and C1 controls.
pub open spec fn is_control(c: char) -> bool {
    (c as u32) <= 0x1f || (0x7f <= (c as u32) && (c as u32) <= 0x9f)
}

/// The Unicode White_Space property.
pub open spec fn is_white(c: char) -> bool {
    let u = c as u32;
    (0x9 <= u && u <= 0xd) || u == 0x20 || u == 0x85 || u == 0xa0 || u == 0x1680 || (0x2000 <= u
        && u <= 0x200a) || u == 0x2028 || u == 0x2029 || u == 0x202f || u == 0x205f || u == 0x3000
}

/// Whether a character is refused in a file name.
pub fn reserved(c: char) -> (r: bool)
    ensures
        r == is_reserved(c),
{
    c == '<' || c == '>' || c == ':' || c == '"' || c == '/' || c == '\\' || c == '|' || c == '?'
        || c == '*'
}

/// Whether a character is a control character, as `char::is_control` says.
pub fn control(c: char) -> (r: bool)
    ensures
        r == is_control(c),
{
    let u = c as u32;
    u <= 0x1f || (0x7f <= u && u <= 0x9f)
}

/// Whether a character is whitespace, as `char::is_whitespace` says.
pub fn white(c: char) -> (r: bool)
    ensures
        r == is_white(c),
{
    let u = c as u32;
    (0x9 <= u && u <= 0xd) || u == 0x20 || u == 0x85 || u == 0xa0 || u == 0x1680 || (0x2000 <= u
        && u <= 0x200a) || u == 0x2028 || u == 0x2029 || u == 0x202f || u == 0x205f || u == 0x3000
}

/// What a single character becomes before whitespace is collapsed.
pub open spec fn scrub(c: char) -> char {
    if is_control(c) || is_reserved(c) {
        '_'
    } else {
        c
    }
}

/// Each character scrubbed.
pub open spec fn scrub_all(s: Seq<char>) -> Seq<char> {
    s.map_values(|c: char| scrub(c))
}

/// Every maximal run of whitespace becomes one space.
pub open spec fn collapse(s: Seq<char>) -> Seq<char>
    decreases s.len(),
{
    if s.len() == 0 {
        seq![]
    } else {
        let r = collapse(s.drop_last());
        if is_white(s.last()) {
            if r.len() > 0 && r.last() == ' ' {
                r
            } else {
                r.push(' ')
            }
        } else {
            r.push(s.last())
        }
    }
}

pub open spec fn trim_start(s: Seq<char>) -> Seq<char>
    decreases s.len(),
{
    if s.len() > 0 && is_white(s[0]) {
        trim_start(s.drop_first())
    } else {
        s
    }
}

pub open spec fn trim_end(s: Seq<char>) -> Seq<char>
    decreases s.len(),
{
    if s.len() > 0 && is_white(s.last()) {
        trim_end(s.drop_last())
    } else {
        s
    }
}

/// The cleaning steps that follow normalization.
pub open spec fn clean_text(t: Seq<char>) -> Seq<char> {
    trim_end(trim_start(collapse(scrub_all(t))))
}

/// The canonical composition (NFC) of a text.
pub uninterp spec fn nfc_of(s: Seq<char>) -> Seq<char>;

/// A file name component made from an arbitrary title.
pub open spec fn sanitized(s: Seq<char>) -> Seq<char> {
    clean_text(nfc_of(s))
}

/// Holds no reserved and no control character.
pub open spec fn is_safe(s: Seq<char>) -> bool {
    forall|i: int| 0 <= i < s.len() ==> !is_reserved(#[trigger] s[i]) && !is_control(s[i])
}

/// Its only whitespace is the plain space, never two in a row.
pub open spec fn single_spaced(s: Seq<char>) -> bool {
    &&& forall|i: int| 0 <= i < s.len() && is_white(#[trigger] s[i]) ==> s[i] == ' '
    &&& forall|i: int|
        0 <= i < s.len() - 1 ==> !(is_white(#[trigger] s[i]) && is_white(s[i + 1]))
}

/// Neither starts nor ends with whitespace.
pub open spec fn is_trimmed(s: Seq<char>) -> bool {
    s.len() > 0 ==> !is_white(s[0]) && !is_white(s.last())
}

proof fn lemma_scrub_safe(s: Seq<char>)
    ensures
        is_safe(scrub_all(s)),
{
}

proof fn lemma_scrub_fixed(s: Seq<char>)
    requires
        is_safe(s),
    ensures
        scrub_all(s) == s,
{
    assert(scrub_all(s) =~= s);
}

proof fn lemma_collapse_shape(s: Seq<char>)
    ensures
        single_spaced(collapse(s)),
        is_safe(s) ==> is_safe(collapse(s)),
    decreases s.len(),
{
    if s.len() > 0 {
        lemma_collapse_shape(s.drop_last());
        if is_safe(s) {
            assert(is_safe(s.drop_last())) by {
                assert forall|i: int| 0 <= i < s.drop_last().len() implies !is_reserved(
                    #[trigger] s.drop_last()[i],
                ) && !is_control(s.drop_last()[i]) by {
                    assert(s.drop_last()[i] == s[i]);
                }
            }
            assert(!is_reserved(s[s.len() - 1]));
        }
    }
}

proof fn lemma_collapse_fixed(s: Seq<char>)
    requires
        single_spaced(s),
    ensures
        collapse(s) == s,
    decreases s.len(),
{
    if s.len() > 0 {
        let p = s.drop_last();
        assert(single_spaced(p)) by {
            assert forall|i: int| 0 <= i < p.len() - 1 implies !(is_white(#[trigger] p[i])
                && is_white(p[i + 1])) by {
                assert(p[i] == s[i] && p[i + 1] == s[i + 1]);
            }
            assert forall|i: int| 0 <= i < p.len() && is_white(#[trigger] p[i]) implies p[i]
                == ' ' by {
                assert(p[i] == s[i]);
            }
        }
        lemma_collapse_fixed(p);
        if is_white(s.last()) && p.len() > 0 {
            assert(!is_white(s[s.len() - 2]));
        }
        assert(p.push(s.last()) =~= s);
    }
}

proof fn lemma_trim_start(s: Seq<char>)
    ensures
        trim_start(s).len() <= s.len(),
        trim_start(s) == s.subrange(s.len() - trim_start(s).len(), s.len() as int),
        trim_start(s).len() > 0 ==> !is_white(trim_start(s)[0]),
    decreases s.len(),
{
    if s.len() > 0 && is_white(s[0]) {
        lemma_trim_start(s.drop_first());
        assert(s.drop_first().subrange(
            s.drop_first().len() - trim_start(s).len(),
            s.drop_first().len() as int,
        ) =~= s.subrange(s.len() - trim_start(s).len(), s.len() as int));
    } else {
        assert(s.subrange(0, s.len() as int) =~= s);
    }
}

proof fn lemma_trim_end(s: Seq<char>)
    ensures
        trim_end(s).len() <= s.len(),
        trim_end(s) == s.subrange(0, trim_end(s).len() as int),
        trim_end(s).len() > 0 ==> !is_white(trim_end(s).last()),
    decreases s.len(),
{
    if s.len() > 0 && is_white(s.last()) {
        lemma_trim_end(s.drop_last());
        assert(s.drop_last().subrange(0, trim_end(s).len() as int) =~= s.subrange(
            0,
            trim_end(s).len() as int,
        ));
    } else {
        assert(s.subrange(0, s.len() as int) =~= s);
    }
}

/// What the cleaning steps produce: safe, single spaced and trimmed.
proof fn lemma_clean_text_shape(t: Seq<char>)
    ensures
        is_safe(clean_text(t)),
        single_spaced(clean_text(t)),
        is_trimmed(clean_text(t)),
{
    let c = collapse(scrub_all(t));
    lemma_scrub_safe(t);
    lemma_collapse_shape(scrub_all(t));
    lemma_trim_start(c);
    let a = trim_start(c);
    lemma_trim_end(a);
    let b = trim_end(a);
    let k = c.len() - a.len();
    assert forall|i: int| 0 <= i < b.len() implies #[trigger] b[i] == c[i + k] by {
        assert(b[i] == a[i]);
    }
    assert(is_safe(b)) by {
        assert forall|i: int| 0 <= i < b.len() implies !is_reserved(#[trigger] b[i])
            && !is_control(b[i]) by {
            assert(b[i] == c[i + k]);
        }
    }
    assert(single_spaced(b)) by {
        assert forall|i: int| 0 <= i < b.len() - 1 implies !(is_white(#[trigger] b[i])
            && is_white(b[i + 1])) by {
            assert(b[i] == c[i + k] && b[i + 1] == c[i + 1 + k]);
        }
        assert forall|i: int| 0 <= i < b.len() && is_white(#[trigger] b[i]) implies b[i]
            == ' ' by {
            assert(b[i] == c[i + k]);
        }
    }
    if b.len() > 0 {
        assert(b[0] == a[0]);
    }
}

/// A sanitized name holds none of `< > : " / \ | ? *` and no control character.
pub proof fn lemma_sanitized_is_safe(s: Seq<char>)
    ensures
        is_safe(sanitized(s)),
{
    lemma_clean_text_shape(nfc_of(s));
}

/// A sanitized name has no leading or trailing whitespace, and no two
/// whitespace characters in a row.
pub proof fn lemma_sanitized_is_trimmed(s: Seq<char>)
    ensures
        is_trimmed(sanitized(s)),
        single_spaced(sanitized(s)),
{
    lemma_clean_text_shape(nfc_of(s));
}

/// Cleaning a cleaned text changes nothing.
pub proof fn lemma_clean_text_idempotent(t: Seq<char>)
    ensures
        clean_text(clean_text(t)) == clean_text(t),
{
    let u = clean_text(t);
    lemma_clean_text_shape(t);
    lemma_scrub_fixed(u);
    lemma_collapse_fixed(u);
}

/// Sanitizing a sanitized name changes nothing, where that name is already
/// in composed form.
pub proof fn lemma_sanitize_idempotent_when_composed(s: Seq<char>)
    requires
        nfc_of(sanitized(s)) == sanitized(s),
    ensures
        sanitized(sanitized(s)) == sanitized(s),
{
    lemma_clean_text_idempotent(nfc_of(s));
}

/// Relies on unicode_normalization's `nfc` iterator: the canonical composition
/// of the text, which depends on its characters alone; empty text stays
/// empty.
#[verifier::external_body]
fn compose(s: &str) -> (r: String)
    ensures
        r@ == nfc_of(s@),
        s@.len() == 0 ==> r@.len() == 0,
{
    s.nfc().collect::<String>()
}

/// The characters of a text, in order.
pub(crate) fn chars_of(s: &str) -> (r: Vec<char>)
    ensures
        r@ == s@,
{
    let n = s.unicode_len();
    let mut r: Vec<char> = Vec::new();
    let mut i: usize = 0;
    while i < n
        invariant
            n == s@.len(),
            i <= n,
            r@ == s@.take(i as int),
        decreases n - i,
    {
        r.push(s.get_char(i));
        assert(r@ =~= s@.take(i + 1));
        i += 1;
    }
    assert(s@.take(n as int) =~= s@);
    r
}

/// Relies on `String: FromIterator<char>`: the text of these characters.
#[verifier::external_body]
pub(crate) fn string_of(v: &Vec<char>) -> (r: String)
    ensures
        r@ == v@,
{
    v.iter().collect()
}

/// Sanitize a file name component: compose to NFC, replace control and
/// reserved characters by `_`, collapse whitespace runs to one space, trim.
pub fn sanitize_filename(input: &str) -> (r: String)
    ensures
        r@ == sanitized(input@),
        input@.len() == 0 ==> r@.len() == 0,
        is_safe(r@),
        is_trimmed(r@),
        single_spaced(r@),
{
    let composed = compose(input);
    clean_filename(composed.as_str())
}

/// The cleaning steps of [`sanitize_filename`] on a text that is already
/// composed: replace control and reserved characters by `_`, collapse
/// whitespace runs to one space, trim.
pub fn clean_filename(composed: &str) -> (r: String)
    ensures
        r@ == clean_text(composed@),
        composed@.len() == 0 ==> r@.len() == 0,
        is_safe(r@),
        is_trimmed(r@),
        single_spaced(r@),
{
    proof {
        lemma_clean_text_shape(composed@);
    }
    let cs = chars_of(composed);
    let mut out: Vec<char> = Vec::new();
    let mut i: usize = 0;
    while i < cs.len()
        invariant
            i <= cs@.len(),
            out@ == collapse(scrub_all(cs@.take(i as int))),
        decreases cs@.len() - i,
    {
        let c = cs[i];
        let d = if control(c) || reserved(c) {
            '_'
        } else {
            c
        };
        if white(d) {
            let n = out.len();
            if !(n > 0 && out[n - 1] == ' ') {
                out.push(' ');
            }
        } else {
            out.push(d);
        }
        proof {
            let prev = scrub_all(cs@.take(i as int));
            let next = scrub_all(cs@.take(i + 1));
            assert(next.drop_last() =~= prev);
            assert(next.last() == d);
        }
        i += 1;
    }
    proof {
        assert(cs@.take(cs@.len() as int) =~= cs@);
    }
    let n = out.len();
    let mut start: usize = 0;
    assert(out@.subrange(0, n as int) =~= out@);
    while start < n && white(out[start])
        invariant
            start <= n == out@.len(),
            trim_start(out@) == trim_start(out@.subrange(start as int, n as int)),
        decreases n - start,
    {
        assert(out@.subrange(start as int, n as int).drop_first() =~= out@.subrange(
            start + 1,
            n as int,
        ));
        start += 1;
    }
    let mut end: usize = n;
    while end > start && white(out[end - 1])
        invariant
            start <= end <= n == out@.len(),
            trim_start(out@) == out@.subrange(start as int, n as int),
            trim_end(trim_start(out@)) == trim_end(out@.subrange(start as int, end as int)),
        decreases end - start,
    {
        assert(out@.subrange(start as int, end as int).drop_last() =~= out@.subrange(
            start as int,
            end - 1,
        ));
        end -= 1;
    }
    let mut kept: Vec<char> = Vec::new();
    let mut j: usize = start;
    while j < end
        invariant
            start <= j <= end <= n == out@.len(),
            kept@ == out@.subrange(start as int, j as int),
        decreases end - j,
    {
        kept.push(out[j]);
        assert(kept@ =~= out@.subrange(start as int, j + 1));
        j += 1;
    }
    string_of(&kept)
}

} // verus!
