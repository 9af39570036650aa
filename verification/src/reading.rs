//! The reading-comprehension artifact and its persisted JSON form.
//!
//! An artifact is a title, a story and a list of comprehension questions.
//! It is persisted as one line of compact JSON text,
//! `{"title":...,"story":...,"questions":[...]}`, and read back by a parser
//! that accepts exactly such objects. [`lemma_artifact_round_trip`] states
//! the round-trip law: every encoded artifact parses back to itself.

use vstd::prelude::*;
use vstd::utf8::{decode_utf8, encode_utf8, valid_utf8};
use vstd::string::StrSliceExecFns;
use crate::json::{
    chop, esc, escape_into, has_at, spec_unesc, string_from_utf8, unescape_from, COMMA, QUOTE,
    RBRACE, RBRACKET,
};

verus! {

/// A generated reading-comprehension artifact: the one content shape this
/// service caches.
#[derive(Debug, Clone, PartialEq, Eq)]
pub struct ReadingContents {
    pub title: String,
    pub story: String,
    pub questions: Vec<String>,
}

/// The mathematical shape of an artifact: its fields as character sequences.
pub ghost struct ArtifactView {
    pub title: Seq<char>,
    pub story: Seq<char>,
    pub questions: Seq<Seq<char>>,
}

impl View for ReadingContents {
    type V = ArtifactView;

    open spec fn view(&self) -> ArtifactView {
        ArtifactView {
            title: self.title@,
            story: self.story@,
            questions: self.questions.deep_view(),
        }
    }
}

/// `{"title":"`
pub open spec fn title_frame() -> Seq<u8> {
    seq![123u8, 34, 116, 105, 116, 108, 101, 34, 58, 34]
}

/// `,"story":"` — the quote closing the title is consumed by the string
/// reader, so this frame starts at the comma.
pub open spec fn story_mid() -> Seq<u8> {
    seq![44u8, 34, 115, 116, 111, 114, 121, 34, 58, 34]
}

/// `,"questions":[`
pub open spec fn questions_mid() -> Seq<u8> {
    seq![44u8, 34, 113, 117, 101, 115, 116, 105, 111, 110, 115, 34, 58, 91]
}

/// `]}`
pub open spec fn end_frame() -> Seq<u8> {
    seq![93u8, 125]
}

/// One question as a quoted, escaped JSON string.
pub open spec fn qitem(q: Seq<char>) -> Seq<u8> {
    seq![QUOTE] + esc(encode_utf8(q)) + seq![QUOTE]
}

/// Every question after the first, each preceded by a comma.
pub open spec fn qtail(qs: Seq<Seq<char>>) -> Seq<u8>
    decreases qs.len(),
{
    if qs.len() == 0 {
        seq![]
    } else {
        seq![COMMA] + qitem(qs[0]) + qtail(qs.drop_first())
    }
}

/// The body of the questions array: items separated by commas.
pub open spec fn qbody(qs: Seq<Seq<char>>) -> Seq<u8> {
    if qs.len() == 0 {
        seq![]
    } else {
        qitem(qs[0]) + qtail(qs.drop_first())
    }
}

/// The persisted JSON bytes of an artifact. This is the layout contract:
/// compact UTF-8 JSON with the fields in declaration order.
pub open spec fn json_of(v: ArtifactView) -> Seq<u8> {
    title_frame() + esc(encode_utf8(v.title)) + seq![QUOTE] + story_mid() + esc(
        encode_utf8(v.story),
    ) + seq![QUOTE] + questions_mid() + qbody(v.questions) + end_frame()
}

/// Reads the questions array from just after its opening bracket to the end
/// of the input, which must close the array and the object and then stop.
pub open spec fn spec_parse_questions(b: Seq<u8>) -> Option<Seq<Seq<u8>>>
    decreases b.len(),
{
    if b.len() < 2 {
        None
    } else if b[0] == RBRACKET {
        if b == end_frame() {
            Some(seq![])
        } else {
            None
        }
    } else if b[0] == QUOTE {
        match spec_unesc(b.drop_first()) {
            None => None,
            Some(p) => {
                let rem = chop(b.drop_first(), p.1);
                if rem.len() < 2 {
                    None
                } else if rem[0] == RBRACKET {
                    if rem == end_frame() {
                        Some(seq![p.0])
                    } else {
                        None
                    }
                } else if rem[0] == COMMA {
                    match spec_parse_questions(chop(rem, 1)) {
                        None => None,
                        Some(qs) => Some(seq![p.0] + qs),
                    }
                } else {
                    None
                }
            },
        }
    } else {
        None
    }
}

/// The byte sequences a vector of byte vectors holds.
pub open spec fn byte_views(s: Seq<Vec<u8>>) -> Seq<Seq<u8>> {
    s.map_values(|q: Vec<u8>| q@)
}

/// Whether every parsed string is valid UTF-8.
pub open spec fn all_valid_utf8(qs: Seq<Seq<u8>>) -> bool {
    forall|i: int| 0 <= i < qs.len() ==> valid_utf8(#[trigger] qs[i])
}

/// Strips `f` from the front of `b`, when it is there.
pub open spec fn take_frame(b: Seq<u8>, f: Seq<u8>) -> Option<Seq<u8>> {
    if f.is_prefix_of(b) {
        Some(chop(b, f.len() as int))
    } else {
        None
    }
}

/// Reads one escaped string body up to and including its closing quote;
/// yields the unescaped bytes and the rest of the input.
pub open spec fn take_string(b: Seq<u8>) -> Option<(Seq<u8>, Seq<u8>)> {
    match spec_unesc(b) {
        None => None,
        Some(p) => Some((p.0, chop(b, p.1))),
    }
}

/// The fields an artifact parse finds: title bytes, story bytes, question
/// bytes, each still escaped-off but not yet UTF-8 decoded.
pub open spec fn spec_parse_fields(b: Seq<u8>) -> Option<(Seq<u8>, Seq<u8>, Seq<Seq<u8>>)> {
    match take_frame(b, title_frame()) {
        None => None,
        Some(b1) => match take_string(b1) {
            None => None,
            Some(tp) => match take_frame(tp.1, story_mid()) {
                None => None,
                Some(b3) => match take_string(b3) {
                    None => None,
                    Some(sp) => match take_frame(sp.1, questions_mid()) {
                        None => None,
                        Some(b5) => match spec_parse_questions(b5) {
                            None => None,
                            Some(qs) => Some((tp.0, sp.0, qs)),
                        },
                    },
                },
            },
        },
    }
}

/// Reads a whole artifact. Accepts exactly the compact layout that
/// [`json_of`] writes, with nothing before or after it, and demands that
/// every string field is valid UTF-8.
pub open spec fn spec_parse_artifact(b: Seq<u8>) -> Option<ArtifactView> {
    match spec_parse_fields(b) {
        None => None,
        Some(f) => {
            if valid_utf8(f.0) && valid_utf8(f.1) && all_valid_utf8(f.2) {
                Some(
                    ArtifactView {
                        title: decode_utf8(f.0),
                        story: decode_utf8(f.1),
                        questions: f.2.map_values(|q: Seq<u8>| decode_utf8(q)),
                    },
                )
            } else {
                None
            }
        },
    }
}

/// Appending a question extends the comma-separated tail by one item.
proof fn lemma_qtail_push(qs: Seq<Seq<char>>, q: Seq<char>)
    ensures
        qtail(qs.push(q)) == qtail(qs) + seq![COMMA] + qitem(q),
    decreases qs.len(),
{
    if qs.len() == 0 {
        assert(qs.push(q)[0] == q);
        assert(qs.push(q).drop_first() =~= Seq::<Seq<char>>::empty());
        assert(qtail(qs.push(q).drop_first()) == Seq::<u8>::empty());
        assert(qtail(qs) == Seq::<u8>::empty());
        assert(qtail(qs.push(q)) =~= qtail(qs) + seq![COMMA] + qitem(q));
    } else {
        assert(qs.push(q)[0] == qs[0]);
        assert(qs.push(q).drop_first() =~= qs.drop_first().push(q));
        lemma_qtail_push(qs.drop_first(), q);
        assert(qtail(qs.push(q)) == seq![COMMA] + qitem(qs[0]) + (qtail(qs.drop_first())
            + seq![COMMA] + qitem(q)));
        assert(qtail(qs.push(q)) =~= qtail(qs) + seq![COMMA] + qitem(q));
    }
}

/// Appending a question extends the array body by one item, with a comma
/// exactly when the body was not empty.
proof fn lemma_qbody_push(qs: Seq<Seq<char>>, q: Seq<char>)
    ensures
        qs.len() == 0 ==> qbody(qs.push(q)) == qitem(q),
        qs.len() > 0 ==> qbody(qs.push(q)) == qbody(qs) + seq![COMMA] + qitem(q),
{
    if qs.len() == 0 {
        assert(qs.push(q)[0] == q);
        assert(qs.push(q).drop_first() =~= Seq::<Seq<char>>::empty());
        assert(qtail(qs.push(q).drop_first()) == Seq::<u8>::empty());
        assert(qbody(qs.push(q)) =~= qitem(q));
    } else {
        assert(qs.push(q)[0] == qs[0]);
        assert(qs.push(q).drop_first() =~= qs.drop_first().push(q));
        lemma_qtail_push(qs.drop_first(), q);
        assert(qbody(qs.push(q)) =~= qbody(qs) + seq![COMMA] + qitem(q));
    }
}

/// The encoded questions array, followed by the closing frame, parses back
/// to exactly the encoded bytes of each question.
#[verifier::rlimit(100)]
proof fn lemma_parse_questions_round(qs: Seq<Seq<char>>)
    ensures
        spec_parse_questions(qbody(qs) + end_frame()) == Some(
            qs.map_values(|q: Seq<char>| encode_utf8(q)),
        ),
    decreases qs.len(),
{
    let b = qbody(qs) + end_frame();
    if qs.len() == 0 {
        assert(b =~= end_frame());
        assert(b == end_frame());
        assert(qs.map_values(|q: Seq<char>| encode_utf8(q)) =~= Seq::<Seq<u8>>::empty());
    } else {
        let u0 = encode_utf8(qs[0]);
        let rest = qs.drop_first();
        let after = qtail(rest) + end_frame();
        assert(b =~= seq![QUOTE] + (esc(u0) + seq![QUOTE] + after));
        assert(b.len() >= 2 && b[0] == QUOTE);
        assert(b.drop_first() =~= esc(u0) + seq![QUOTE] + after);
        crate::json::lemma_unesc_esc(u0, after);
        let n = esc(u0).len() as int + 1;
        assert(spec_unesc(b.drop_first()) == Some((u0, n)));
        let rem = chop(b.drop_first(), n);
        assert(rem =~= after);
        if rest.len() == 0 {
            assert(rem =~= end_frame());
            assert(rem == end_frame());
            assert(rem[0] == RBRACKET);
            assert(spec_parse_questions(b) == Some(seq![u0]));
            assert(qs.map_values(|q: Seq<char>| encode_utf8(q)) =~= seq![u0]);
        } else {
            assert(rem =~= seq![COMMA] + qitem(rest[0]) + qtail(rest.drop_first()) + end_frame());
            assert(rem[0] == COMMA);
            assert(rem.len() >= 2);
            assert(chop(rem, 1) =~= qbody(rest) + end_frame());
            lemma_parse_questions_round(rest);
            assert(spec_parse_questions(b) == Some(
                seq![u0] + rest.map_values(|q: Seq<char>| encode_utf8(q)),
            ));
            assert(qs.map_values(|q: Seq<char>| encode_utf8(q)) =~= seq![u0] + rest.map_values(
                |q: Seq<char>| encode_utf8(q),
            ));
        }
    }
}

/// Stripping a frame just written finds exactly what follows it.
proof fn lemma_take_frame_round(f: Seq<u8>, rest: Seq<u8>)
    ensures
        take_frame(f + rest, f) == Some(rest),
{
    let b = f + rest;
    assert(b.subrange(0, f.len() as int) =~= f);
    assert(f.is_prefix_of(b));
    assert(chop(b, f.len() as int) =~= rest);
}

/// Reading back an escaped body just written finds exactly the original
/// bytes and leaves exactly what follows the closing quote.
proof fn lemma_take_string_round(u: Seq<u8>, rest: Seq<u8>)
    ensures
        take_string(esc(u) + seq![QUOTE] + rest) == Some((u, rest)),
{
    let b = esc(u) + seq![QUOTE] + rest;
    crate::json::lemma_unesc_esc(u, rest);
    assert(spec_unesc(b) == Some((u, esc(u).len() as int + 1)));
    assert(chop(b, esc(u).len() as int + 1) =~= rest);
}

/// An encoded artifact's fields parse back to exactly their encoded bytes.
proof fn lemma_parse_fields_round(v: ArtifactView)
    ensures
        spec_parse_fields(json_of(v)) == Some(
            (
                encode_utf8(v.title),
                encode_utf8(v.story),
                v.questions.map_values(|q: Seq<char>| encode_utf8(q)),
            ),
        ),
{
    let tu = encode_utf8(v.title);
    let su = encode_utf8(v.story);
    let r5 = qbody(v.questions) + end_frame();
    let r4 = questions_mid() + r5;
    let r3 = esc(su) + seq![QUOTE] + r4;
    let r2 = story_mid() + r3;
    let r1 = esc(tu) + seq![QUOTE] + r2;
    let b = title_frame() + r1;
    assert(json_of(v) =~= b);
    lemma_take_frame_round(title_frame(), r1);
    lemma_take_string_round(tu, r2);
    lemma_take_frame_round(story_mid(), r3);
    lemma_take_string_round(su, r4);
    lemma_take_frame_round(questions_mid(), r5);
    lemma_parse_questions_round(v.questions);
}

/// Round-trip law: every artifact's JSON encoding parses back to the same
/// artifact, whatever its fields hold.
pub proof fn lemma_artifact_round_trip(v: ArtifactView)
    ensures
        spec_parse_artifact(json_of(v)) == Some(v),
{
    broadcast use vstd::utf8::encode_utf8_valid_utf8;
    broadcast use vstd::utf8::encode_utf8_decode_utf8;

    lemma_parse_fields_round(v);
    let qsb = v.questions.map_values(|q: Seq<char>| encode_utf8(q));
    assert forall|i: int| 0 <= i < qsb.len() implies valid_utf8(#[trigger] qsb[i]) by {
        assert(qsb[i] == encode_utf8(v.questions[i]));
    }
    assert(all_valid_utf8(qsb));
    let decoded = qsb.map_values(|q: Seq<u8>| decode_utf8(q));
    assert forall|i: int| 0 <= i < qsb.len() implies #[trigger] decoded[i] == v.questions[i] by {
        assert(qsb[i] == encode_utf8(v.questions[i]));
    }
    assert(decoded =~= v.questions);
    assert(spec_parse_artifact(json_of(v)) == Some(v));
}

/// Appends `{"title":"` to `out`.
fn push_title_frame(out: &mut Vec<u8>)
    ensures
        final(out)@ == old(out)@ + title_frame(),
{
    out.push(123);
    out.push(34);
    out.push(116);
    out.push(105);
    out.push(116);
    out.push(108);
    out.push(101);
    out.push(34);
    out.push(58);
    out.push(34);
    proof {
        assert(final(out)@ =~= old(out)@ + title_frame());
    }
}

/// Appends `,"story":"` to `out`.
fn push_story_mid(out: &mut Vec<u8>)
    ensures
        final(out)@ == old(out)@ + story_mid(),
{
    out.push(44);
    out.push(34);
    out.push(115);
    out.push(116);
    out.push(111);
    out.push(114);
    out.push(121);
    out.push(34);
    out.push(58);
    out.push(34);
    proof {
        assert(final(out)@ =~= old(out)@ + story_mid());
    }
}

/// Appends `,"questions":[` to `out`.
fn push_questions_mid(out: &mut Vec<u8>)
    ensures
        final(out)@ == old(out)@ + questions_mid(),
{
    out.push(44);
    out.push(34);
    out.push(113);
    out.push(117);
    out.push(101);
    out.push(115);
    out.push(116);
    out.push(105);
    out.push(111);
    out.push(110);
    out.push(115);
    out.push(34);
    out.push(58);
    out.push(91);
    proof {
        assert(final(out)@ =~= old(out)@ + questions_mid());
    }
}

/// `{"title":"` as a vector, for matching input against the layout.
fn title_frame_vec() -> (r: Vec<u8>)
    ensures
        r@ == title_frame(),
{
    let mut v: Vec<u8> = Vec::new();
    push_title_frame(&mut v);
    proof {
        assert(v@ =~= title_frame());
    }
    v
}

/// `,"story":"` as a vector.
fn story_mid_vec() -> (r: Vec<u8>)
    ensures
        r@ == story_mid(),
{
    let mut v: Vec<u8> = Vec::new();
    push_story_mid(&mut v);
    proof {
        assert(v@ =~= story_mid());
    }
    v
}

/// `,"questions":[` as a vector.
fn questions_mid_vec() -> (r: Vec<u8>)
    ensures
        r@ == questions_mid(),
{
    let mut v: Vec<u8> = Vec::new();
    push_questions_mid(&mut v);
    proof {
        assert(v@ =~= questions_mid());
    }
    v
}

/// Serializes an artifact to its persisted JSON bytes.
pub fn encode_artifact(a: &ReadingContents) -> (r: Vec<u8>)
    ensures
        r@ == json_of(a@),
{
    let mut out: Vec<u8> = Vec::new();
    push_title_frame(&mut out);
    let tb = a.title.as_str().as_bytes_vec();
    escape_into(&mut out, tb.as_slice());
    out.push(QUOTE);
    push_story_mid(&mut out);
    let sb = a.story.as_str().as_bytes_vec();
    escape_into(&mut out, sb.as_slice());
    out.push(QUOTE);
    push_questions_mid(&mut out);
    let ghost head = out@;
    proof {
        assert(a@.questions.take(0) =~= Seq::<Seq<char>>::empty());
        assert(out@ =~= head + qbody(a@.questions.take(0)));
    }
    let mut i: usize = 0;
    while i < a.questions.len()
        invariant
            i <= a.questions@.len(),
            a@.questions.len() == a.questions@.len(),
            out@ == head + qbody(a@.questions.take(i as int)),
        decreases a.questions@.len() - i,
    {
        if i > 0 {
            out.push(COMMA);
        }
        out.push(QUOTE);
        let qb = a.questions[i].as_str().as_bytes_vec();
        escape_into(&mut out, qb.as_slice());
        out.push(QUOTE);
        proof {
            assert(a@.questions[i as int] == a.questions@[i as int]@);
            assert(a@.questions.take(i + 1) =~= a@.questions.take(i as int).push(
                a@.questions[i as int],
            ));
            lemma_qbody_push(a@.questions.take(i as int), a@.questions[i as int]);
            assert(out@ =~= head + qbody(a@.questions.take(i + 1)));
        }
        i = i + 1;
    }
    out.push(RBRACKET);
    out.push(RBRACE);
    proof {
        assert(a@.questions.take(a.questions@.len() as int) =~= a@.questions);
        assert(out@ =~= json_of(a@));
    }
    out
}

/// Reads the questions array of `b` starting at `i` (just past the opening
/// bracket); the input must end right after closing the array and object.
/// Returns the unescaped bytes of each question.
fn parse_questions_from(b: &Vec<u8>, i: usize) -> (r: Option<Vec<Vec<u8>>>)
    requires
        i <= b@.len(),
    ensures
        r matches Some(v) ==> spec_parse_questions(b@.skip(i as int)) == Some(byte_views(v@)),
        r is None ==> spec_parse_questions(b@.skip(i as int)) is None,
    decreases b@.len() - i,
{
    let ghost s = b@.skip(i as int);
    let n = b.len();
    if n - i < 2 {
        return None;
    }
    let c0 = b[i];
    proof {
        assert(s[0] == b@[i as int]);
        assert(s[1] == b@[i + 1]);
    }
    if c0 == RBRACKET {
        if n - i == 2 && b[i + 1] == RBRACE {
            proof {
                assert(s =~= end_frame());
            }
            let r: Vec<Vec<u8>> = Vec::new();
            proof {
                assert(byte_views(r@) =~= Seq::<Seq<u8>>::empty());
            }
            return Some(r);
        } else {
            proof {
                assert(s != end_frame());
            }
            return None;
        }
    }
    if c0 == QUOTE {
        proof {
            assert(b@.skip(i + 1) =~= s.drop_first());
        }
        match unescape_from(b, i + 1) {
            None => {
                return None;
            },
            Some((qv, j)) => {
                proof {
                    assert(chop(s.drop_first(), j - (i + 1)) =~= b@.skip(j as int));
                }
                let ghost rem = chop(s.drop_first(), j - (i + 1));
                if n - j < 2 {
                    return None;
                }
                let c = b[j];
                proof {
                    assert(rem[0] == b@[j as int]);
                    assert(rem[1] == b@[j + 1]);
                }
                if c == RBRACKET {
                    if n - j == 2 && b[j + 1] == RBRACE {
                        proof {
                            assert(rem =~= end_frame());
                        }
                        let mut r: Vec<Vec<u8>> = Vec::new();
                        let ghost qvs = qv@;
                        r.push(qv);
                        proof {
                            assert(byte_views(r@) =~= seq![qvs]);
                        }
                        return Some(r);
                    } else {
                        proof {
                            assert(rem != end_frame());
                        }
                        return None;
                    }
                }
                if c == COMMA {
                    proof {
                        assert(chop(rem, 1) =~= b@.skip(j + 1));
                    }
                    match parse_questions_from(b, j + 1) {
                        None => {
                            return None;
                        },
                        Some(mut rest) => {
                            let ghost rest0 = byte_views(rest@);
                            let ghost qvs = qv@;
                            rest.insert(0, qv);
                            proof {
                                assert(byte_views(rest@) =~= seq![qvs] + rest0);
                            }
                            return Some(rest);
                        },
                    }
                }
                return None;
            },
        }
    }
    None
}

/// Deserializes an artifact from its persisted JSON bytes. Returns `None`
/// exactly when the bytes are not the canonical encoding of any artifact.
#[verifier::rlimit(100)]
#[verifier::loop_isolation(false)]
pub fn parse_artifact(b: &Vec<u8>) -> (r: Option<ReadingContents>)
    ensures
        r matches Some(a) ==> spec_parse_artifact(b@) == Some(a@),
        r is None ==> spec_parse_artifact(b@) is None,
{
    let n = b.len();
    let tf = title_frame_vec();
    proof {
        assert(b@.skip(0) =~= b@);
    }
    if !has_at(b, 0, &tf) {
        return None;
    }
    proof {
        assert(b@.len() >= 10);
        assert(chop(b@, 10) =~= b@.skip(10));
        assert(take_frame(b@, title_frame()) == Some(b@.skip(10)));
    }
    let (tv, i1) = match unescape_from(b, 10) {
        None => {
            return None;
        },
        Some(p) => p,
    };
    let ghost tvs = tv@;
    proof {
        assert(chop(b@.skip(10), i1 - 10) =~= b@.skip(i1 as int));
        assert(take_string(b@.skip(10)) == Some((tvs, b@.skip(i1 as int))));
    }
    let sf = story_mid_vec();
    if !has_at(b, i1, &sf) {
        return None;
    }
    proof {
        assert(b@.skip(i1 as int).len() >= 10);
        assert(i1 + 10 <= n);
        assert(chop(b@.skip(i1 as int), 10) =~= b@.skip(i1 + 10));
        assert(take_frame(b@.skip(i1 as int), story_mid()) == Some(b@.skip(i1 + 10)));
    }
    let (sv, i2) = match unescape_from(b, i1 + 10) {
        None => {
            return None;
        },
        Some(p) => p,
    };
    let ghost svs = sv@;
    proof {
        assert(chop(b@.skip(i1 + 10), i2 - (i1 + 10)) =~= b@.skip(i2 as int));
        assert(take_string(b@.skip(i1 + 10)) == Some((svs, b@.skip(i2 as int))));
    }
    let qf = questions_mid_vec();
    if !has_at(b, i2, &qf) {
        return None;
    }
    proof {
        assert(b@.skip(i2 as int).len() >= 14);
        assert(i2 + 14 <= n);
        assert(chop(b@.skip(i2 as int), 14) =~= b@.skip(i2 + 14));
        assert(take_frame(b@.skip(i2 as int), questions_mid()) == Some(b@.skip(i2 + 14)));
    }
    let qs = match parse_questions_from(b, i2 + 14) {
        None => {
            return None;
        },
        Some(v) => v,
    };
    proof {
        assert(spec_parse_fields(b@) == Some((tvs, svs, byte_views(qs@))));
    }
    let title = match string_from_utf8(tv) {
        None => {
            return None;
        },
        Some(s) => s,
    };
    let story = match string_from_utf8(sv) {
        None => {
            return None;
        },
        Some(s) => s,
    };
    let mut questions: Vec<String> = Vec::new();
    let qn = qs.len();
    let mut k: usize = 0;
    while k < qn
        invariant
            k <= qn,
            qn == qs@.len(),
            questions@.len() == k,
            forall|t: int|
                0 <= t < k ==> valid_utf8((#[trigger] qs@[t])@) && questions@[t]@ == decode_utf8(
                    qs@[t]@,
                ),
        decreases qn - k,
    {
        let qb = vstd::slice::slice_to_vec(qs[k].as_slice());
        match string_from_utf8(qb) {
            None => {
                proof {
                    assert(!all_valid_utf8(byte_views(qs@))) by {
                        assert(byte_views(qs@)[k as int] == qs@[k as int]@);
                        assert(!valid_utf8(byte_views(qs@)[k as int]));
                    }
                }
                return None;
            },
            Some(s) => {
                questions.push(s);
            },
        }
        k = k + 1;
    }
    let result = ReadingContents { title, story, questions };
    proof {
        let qsv = byte_views(qs@);
        assert forall|t: int| 0 <= t < qsv.len() implies valid_utf8(#[trigger] qsv[t]) by {
            assert(qsv[t] == qs@[t]@);
        }
        assert(all_valid_utf8(qsv));
        let decoded = qsv.map_values(|q: Seq<u8>| decode_utf8(q));
        assert forall|t: int| 0 <= t < qsv.len() implies #[trigger] decoded[t]
            == result@.questions[t] by {
            assert(qsv[t] == qs@[t]@);
            assert(result@.questions[t] == result.questions@[t]@);
        }
        assert(result@.questions =~= decoded);
        assert(spec_parse_artifact(b@) == Some(result@));
    }
    Some(result)
}

} // verus!
