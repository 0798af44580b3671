//! Reports: findings with byte offsets. Spans count characters; editors and report renderers
//! count bytes.
use vstd::prelude::*;
use crate::Finding;
use crate::lint::strings_view;
use crate::text::{byte_len, char_utf8_len, chars_of, string_from, push_str, lemma_byte_len_mono};

verus! {

/// The byte offset of character `k` of `text`.
pub open spec fn byte_offset(text: Seq<char>, k: int) -> nat {
    byte_len(text.take(k))
}

/// The byte offset of every character position, the end included.
struct ByteOffsets(Vec<usize>);

impl ByteOffsets {
    fn new(text: &Vec<char>) -> (o: ByteOffsets)
        requires
            byte_len(text@) <= usize::MAX,
        ensures
            o.0@.len() == text@.len() + 1,
            forall|k: int| 0 <= k <= text@.len() ==> (#[trigger] o.0@[k]) == byte_offset(text@, k),
    {
        let mut v: Vec<usize> = Vec::new();
        let mut total: usize = 0;
        let mut k: usize = 0;
        assert(text@.take(0) =~= Seq::<char>::empty());
        while k < text.len()
            invariant
                k <= text@.len(),
                byte_len(text@) <= usize::MAX,
                v@.len() == k,
                total == byte_offset(text@, k as int),
                forall|j: int| 0 <= j < k ==> (#[trigger] v@[j]) == byte_offset(text@, j),
            decreases text@.len() - k,
        {
            v.push(total);
            proof {
                lemma_byte_len_mono(text@, k + 1, text@.len() as int);
                assert(text@.take(text@.len() as int) =~= text@);
                assert(text@.take(k + 1).drop_last() =~= text@.take(k as int));
            }
            total = total + char_utf8_len(text[k]);
            k = k + 1;
        }
        v.push(total);
        ByteOffsets(v)
    }
}

/// A finding as the JSON report writes it: the span in bytes, and the replacements.
pub struct JsonFinding<'a> {
    pub file: &'a str,
    pub rule: &'a str,
    pub message: &'a str,
    pub start: usize,
    pub end: usize,
    pub suggestions: Vec<String>,
}

/// Every finding's span lies within the text.
pub open spec fn spans_within(text: Seq<char>, findings: Seq<Finding>) -> bool {
    forall|j: int|
        0 <= j < findings.len() ==> (#[trigger] findings[j]).lint.span.start <= text.len() && findings[j].lint.span.end
            <= text.len()
}

fn clone_strings(v: &Vec<String>) -> (c: Vec<String>)
    ensures
        strings_view(c@) == strings_view(v@),
{
    let mut c: Vec<String> = Vec::new();
    let mut k: usize = 0;
    while k < v.len()
        invariant
            k <= v@.len(),
            c@.len() == k,
            forall|j: int| 0 <= j < k ==> (#[trigger] c@[j])@ == v@[j]@,
        decreases v@.len() - k,
    {
        c.push(v[k].clone());
        k = k + 1;
    }
    assert(strings_view(c@) =~= strings_view(v@));
    c
}

/// The findings of one file, with their spans in bytes of `text`. The suggestions are passed on
/// as the findings hold them, in the wordlist's case; the front end matches each to the case of
/// the replaced text (Harper's `Suggestion::replace_with_match_case_str`) before it prints them.
pub fn json<'a>(path: &'a str, text: &str, findings: &'a [Finding]) -> (out: Vec<JsonFinding<'a>>)
    requires
        byte_len(text@) <= usize::MAX,
        spans_within(text@, findings@),
    ensures
        out@.len() == findings@.len(),
        forall|j: int|
            0 <= j < out@.len() ==> {
                let o = #[trigger] out@[j];
                let f = findings@[j];
                &&& o.file == path
                &&& o.rule@ == f.rule@
                &&& o.message@ == f.lint.message@
                &&& o.start == byte_offset(text@, f.lint.span.start as int)
                &&& o.end == byte_offset(text@, f.lint.span.end as int)
                &&& strings_view(o.suggestions@) == strings_view(f.lint.suggestions@)
            },
{
    let chars = chars_of(text);
    let offsets = ByteOffsets::new(&chars);
    let mut out: Vec<JsonFinding<'a>> = Vec::new();
    let mut k: usize = 0;
    while k < findings.len()
        invariant
            chars@ == text@,
            offsets.0@.len() == text@.len() + 1,
            forall|x: int| 0 <= x <= text@.len() ==> (#[trigger] offsets.0@[x]) == byte_offset(text@, x),
            spans_within(text@, findings@),
            k <= findings@.len(),
            out@.len() == k,
            forall|j: int|
                0 <= j < k ==> {
                    let o = #[trigger] out@[j];
                    let f = findings@[j];
                    &&& o.file == path
                    &&& o.rule@ == f.rule@
                    &&& o.message@ == f.lint.message@
                    &&& o.start == byte_offset(text@, f.lint.span.start as int)
                    &&& o.end == byte_offset(text@, f.lint.span.end as int)
                    &&& strings_view(o.suggestions@) == strings_view(f.lint.suggestions@)
                },
        decreases findings@.len() - k,
    {
        let f = &findings[k];
        let start = offsets.0[f.lint.span.start];
        let end = offsets.0[f.lint.span.end];
        out.push(JsonFinding {
            file: path,
            rule: f.rule,
            message: f.lint.message.as_str(),
            start,
            end,
            suggestions: clone_strings(&f.lint.suggestions),
        });
        k = k + 1;
    }
    out
}

/// One label of the human report: `rule: message` over a byte range.
pub struct Label {
    pub text: String,
    pub start: usize,
    pub len: usize,
}

/// The labels of the human report; `None` when there is nothing to say. Each label's range
/// starts and ends on character boundaries of `text`, because it is made of the byte offsets
/// of character positions.
pub fn labels(text: &str, findings: &[Finding]) -> (out: Option<Vec<Label>>)
    requires
        byte_len(text@) <= usize::MAX,
        spans_within(text@, findings@),
    ensures
        findings@.len() == 0 <==> out is None,
        out matches Some(ls) ==> ls@.len() == findings@.len() && forall|j: int|
            0 <= j < ls@.len() ==> {
                let l = #[trigger] ls@[j];
                let f = findings@[j];
                let s = byte_offset(text@, f.lint.span.start as int);
                let e = byte_offset(text@, f.lint.span.end as int);
                &&& l.text@ == f.rule@ + ": "@ + f.lint.message@
                &&& l.start == s
                &&& l.len == if e >= s { e - s } else { 0 }
            },
{
    if findings.len() == 0 {
        return None;
    }
    let chars = chars_of(text);
    let offsets = ByteOffsets::new(&chars);
    let mut out: Vec<Label> = Vec::new();
    let mut k: usize = 0;
    while k < findings.len()
        invariant
            chars@ == text@,
            offsets.0@.len() == text@.len() + 1,
            forall|x: int| 0 <= x <= text@.len() ==> (#[trigger] offsets.0@[x]) == byte_offset(text@, x),
            spans_within(text@, findings@),
            k <= findings@.len(),
            out@.len() == k,
            forall|j: int|
                0 <= j < k ==> {
                    let l = #[trigger] out@[j];
                    let f = findings@[j];
                    let s = byte_offset(text@, f.lint.span.start as int);
                    let e = byte_offset(text@, f.lint.span.end as int);
                    &&& l.text@ == f.rule@ + ": "@ + f.lint.message@
                    &&& l.start == s
                    &&& l.len == if e >= s { e - s } else { 0 }
                },
        decreases findings@.len() - k,
    {
        let f = &findings[k];
        let start = offsets.0[f.lint.span.start];
        let end = offsets.0[f.lint.span.end];
        let mut m: Vec<char> = Vec::new();
        push_str(&mut m, f.rule);
        push_str(&mut m, ": ");
        push_str(&mut m, f.lint.message.as_str());
        let len = if end >= start { end - start } else { 0 };
        out.push(Label { text: string_from(&m), start, len });
        k = k + 1;
    }
    Some(out)
}

} // verus!

verus! {

proof fn lemma_encode_concat(a: Seq<char>, b: Seq<char>)
    ensures
        vstd::utf8::encode_utf8(a + b) == vstd::utf8::encode_utf8(a) + vstd::utf8::encode_utf8(b),
    decreases a.len(),
{
    if a.len() == 0 {
        assert(a + b =~= b);
        assert(vstd::utf8::encode_utf8(a) =~= Seq::<u8>::empty());
        assert(vstd::utf8::encode_utf8(a) + vstd::utf8::encode_utf8(b) =~= vstd::utf8::encode_utf8(b));
    } else {
        assert((a + b).drop_first() =~= a.drop_first() + b);
        assert((a + b)[0] == a[0]);
        lemma_encode_concat(a.drop_first(), b);
        assert(vstd::utf8::encode_utf8(a + b) =~= vstd::utf8::encode_utf8(a) + vstd::utf8::encode_utf8(b));
    }
}

proof fn lemma_encode_char(c: char)
    ensures
        vstd::utf8::encode_utf8(seq![c]).len() == crate::text::utf8_len(c),
{
    let one = seq![c];
    assert(one.drop_first() =~= Seq::<char>::empty());
    assert(vstd::utf8::encode_utf8(one.drop_first()).len() == 0);
    assert(one[0] == c);
    assert(vstd::utf8::encode_utf8(one) == vstd::utf8::encode_scalar(c as u32) + vstd::utf8::encode_utf8(one.drop_first()));
    let v = c as u32;
    assert(vstd::utf8::encode_scalar(v).len() == crate::text::utf8_len(c));
}

proof fn lemma_encode_len(s: Seq<char>)
    ensures
        vstd::utf8::encode_utf8(s).len() == byte_len(s),
    decreases s.len(),
{
    if s.len() == 0 {
    } else {
        lemma_encode_len(s.drop_last());
        assert(s =~= s.drop_last() + seq![s.last()]);
        lemma_encode_concat(s.drop_last(), seq![s.last()]);
        lemma_encode_char(s.last());
    }
}

/// Byte offsets index the text's UTF-8 bytes: the bytes between the offsets of two character
/// positions are the encoding of the characters between them, so a reported byte range starts and
/// ends on character boundaries and reads what the character span reads.
pub proof fn byte_offsets_index_the_text(text: Seq<char>, a: int, b: int)
    requires
        0 <= a <= b <= text.len(),
    ensures
        byte_offset(text, text.len() as int) == vstd::utf8::encode_utf8(text).len(),
        vstd::utf8::encode_utf8(text).subrange(byte_offset(text, a) as int, byte_offset(text, b) as int)
            == vstd::utf8::encode_utf8(text.subrange(a, b)),
{
    let p = text.take(a);
    let m = text.subrange(a, b);
    let r = text.skip(b);
    assert(text =~= p + m + r);
    assert(text.take(text.len() as int) =~= text);
    lemma_encode_len(text);
    lemma_encode_concat(p + m, r);
    lemma_encode_concat(p, m);
    assert(text.take(b) =~= p + m);
    lemma_encode_len(p);
    lemma_encode_len(p + m);
    let e = vstd::utf8::encode_utf8(text);
    assert(e.subrange(byte_offset(text, a) as int, byte_offset(text, b) as int) =~= vstd::utf8::encode_utf8(m));
}

} // verus!
