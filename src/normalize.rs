use vstd::prelude::*;
use vstd::utf8::encode_utf8;
use vstd::utf8::encode_scalar;

verus! {

/// Whether a character counts as alphanumeric (Unicode alphabetic or numeric).
pub uninterp spec fn alnum(c: char) -> bool;

/// ASCII upper-case letters fold to lower case; every other character stays.
pub open spec fn lower(c: char) -> char {
    if 'A' <= c && c <= 'Z' {
        ((c as u8) + 32u8) as char
    } else {
        c
    }
}

/// The lower-cased alphanumeric runs of `cs`, read left to right.
pub open spec fn norm_tokens(cs: Seq<char>) -> Seq<Seq<char>>
    decreases cs.len(),
{
    if cs.len() == 0 {
        seq![]
    } else {
        let p = cs.drop_last();
        let c = cs.last();
        let t = norm_tokens(p);
        if !alnum(c) {
            t
        } else if p.len() > 0 && alnum(p.last()) && t.len() > 0 {
            t.update(t.len() - 1, t.last().push(lower(c)))
        } else {
            t.push(seq![lower(c)])
        }
    }
}

/// The lower-cased runs of `cs` whose characters `flags` marks, read left to right.
pub open spec fn class_tokens(cs: Seq<char>, flags: Seq<bool>) -> Seq<Seq<char>>
    decreases cs.len(),
{
    if cs.len() == 0 || flags.len() != cs.len() {
        seq![]
    } else {
        let p = cs.drop_last();
        let fp = flags.drop_last();
        let t = class_tokens(p, fp);
        if !flags.last() {
            t
        } else if p.len() > 0 && fp.last() && t.len() > 0 {
            t.update(t.len() - 1, t.last().push(lower(cs.last())))
        } else {
            t.push(seq![lower(cs.last())])
        }
    }
}

/// Those runs as UTF-8 byte strings.
pub open spec fn class_byte_tokens(cs: Seq<char>, flags: Seq<bool>) -> Seq<Seq<u8>> {
    class_tokens(cs, flags).map_values(|t: Seq<char>| encode_utf8(t))
}

/// Whether each character is alphanumeric.
pub open spec fn alnum_flags(cs: Seq<char>) -> Seq<bool> {
    Seq::new(cs.len(), |i: int| alnum(cs[i]))
}

proof fn lemma_class_tokens_alnum(cs: Seq<char>)
    ensures
        class_tokens(cs, alnum_flags(cs)) == norm_tokens(cs),
        class_byte_tokens(cs, alnum_flags(cs)) == byte_tokens(cs),
    decreases cs.len(),
{
    if cs.len() > 0 {
        let p = cs.drop_last();
        assert(alnum_flags(cs).drop_last() =~= alnum_flags(p));
        lemma_class_tokens_alnum(p);
        if p.len() > 0 {
            assert(alnum_flags(p).last() == alnum(p.last()));
        }
    }
}

/// The tokens of `cs` as UTF-8 byte strings.
pub open spec fn byte_tokens(cs: Seq<char>) -> Seq<Seq<u8>> {
    norm_tokens(cs).map_values(|t: Seq<char>| encode_utf8(t))
}

/// Tokens joined by single separators.
#[verifier::opaque]
pub open spec fn join_bytes(toks: Seq<Seq<u8>>) -> Seq<u8>
    decreases toks.len(),
{
    if toks.len() == 0 {
        seq![]
    } else if toks.len() == 1 {
        toks[0]
    } else {
        join_bytes(toks.drop_last()) + seq![SEP] + toks.last()
    }
}

/// Text already in normal form: lower-case alphanumeric tokens separated by
/// single spaces, with no space at either end.
pub open spec fn is_normal(cs: Seq<char>) -> bool {
    &&& forall|i: int|
        0 <= i < cs.len() ==> (#[trigger] cs[i] == ' ' && !alnum(cs[i])) || (cs[i] != ' ' && alnum(
            cs[i],
        ) && lower(cs[i]) == cs[i])
    &&& cs.len() > 0 ==> cs[0] != ' ' && cs.last() != ' '
    &&& forall|i: int| 0 <= i < cs.len() - 1 && #[trigger] cs[i] == ' ' ==> cs[i + 1] != ' '
}

/// The separator byte between tokens.
pub const SEP: u8 = 32;

/// A normalized text: one byte buffer, and the span of each token in it.
pub struct NormalizedText {
    pub bytes: Vec<u8>,
    pub spans: Vec<(usize, usize)>,
}

impl NormalizedText {
    /// The tokens, each the bytes of its span.
    pub open spec fn tokens(&self) -> Seq<Seq<u8>> {
        Seq::new(self.spans@.len(), |k: int| self.bytes@.subrange(self.spans@[k].0 as int, self.spans@[k].1 as int))
    }

    /// Tokens are non-empty, in order, and joined by exactly one separator;
    /// the buffer neither starts nor ends with a separator.
    pub open spec fn wf(&self) -> bool {
        &&& forall|k: int| 0 <= k < self.spans@.len() ==>
            (#[trigger] self.spans@[k]).0 < self.spans@[k].1 <= self.bytes@.len()
        &&& forall|k: int| 0 <= k < self.spans@.len() - 1 ==>
            (#[trigger] self.spans@[k]).1 + 1 == self.spans@[k + 1].0
            && self.bytes@[self.spans@[k].1 as int] == SEP
        &&& self.spans@.len() == 0 ==> self.bytes@.len() == 0
        &&& self.spans@.len() > 0 ==> self.spans@[0].0 == 0
            && self.spans@.last().1 == self.bytes@.len()
    }

    pub open spec fn token_count(&self) -> nat {
        self.spans@.len()
    }
}

pub proof fn lemma_encode_concat(a: Seq<char>, b: Seq<char>)
    ensures
        encode_utf8(a + b) == encode_utf8(a) + encode_utf8(b),
    decreases a.len(),
{
    if a.len() == 0 {
        assert(a + b =~= b);
        assert(encode_utf8(a) =~= seq![]);
        assert(encode_utf8(a) + encode_utf8(b) =~= encode_utf8(b));
    } else {
        lemma_encode_concat(a.drop_first(), b);
        assert((a + b).drop_first() =~= a.drop_first() + b);
        assert((a + b)[0] == a[0]);
        assert(encode_utf8(a + b) =~= encode_scalar(a[0] as u32) + encode_utf8(a.drop_first() + b));
        assert(encode_utf8(a) + encode_utf8(b) =~= encode_scalar(a[0] as u32) + (encode_utf8(
            a.drop_first(),
        ) + encode_utf8(b)));
    }
}

proof fn lemma_join_extend(toks: Seq<Seq<u8>>, y: Seq<u8>)
    requires
        toks.len() > 0,
    ensures
        join_bytes(toks.update(toks.len() - 1, toks.last() + y)) == join_bytes(toks) + y,
{
    reveal(join_bytes);
    let u = toks.update(toks.len() - 1, toks.last() + y);
    if toks.len() == 1 {
        assert(u[0] == toks[0] + y);
    } else {
        assert(u.drop_last() =~= toks.drop_last());
        assert(join_bytes(u) =~= join_bytes(toks) + y);
    }
}

proof fn lemma_join_push(toks: Seq<Seq<u8>>, y: Seq<u8>)
    ensures
        toks.len() == 0 ==> join_bytes(toks.push(y)) == y,
        toks.len() > 0 ==> join_bytes(toks.push(y)) == join_bytes(toks) + seq![SEP] + y,
{
    reveal(join_bytes);
    assert(toks.push(y).drop_last() =~= toks);
    if toks.len() == 0 {
        assert(toks.push(y)[0] == y);
    }
}

/// The separator owed before a new token, after `n` tokens.
pub open spec fn sep_before(n: nat) -> Seq<u8> {
    if n > 0 {
        seq![SEP]
    } else {
        seq![]
    }
}

proof fn lemma_join_push_bytes(
    toks: Seq<Seq<u8>>,
    y: Seq<u8>,
    before: Seq<u8>,
    sep_part: Seq<u8>,
    after: Seq<u8>,
)
    requires
        before == join_bytes(toks),
        sep_part == sep_before(toks.len()),
        after == before + sep_part + y,
    ensures
        after == join_bytes(toks.push(y)),
{
    reveal(join_bytes);
    lemma_join_push(toks, y);
    if toks.len() == 0 {
        assert(before =~= seq![]);
        assert(after =~= y);
    }
}

/// Normalizing text that is already in normal form changes nothing: the
/// normalized buffer is the text's own UTF-8 encoding.
pub proof fn lemma_normal_text_fixed(cs: Seq<char>)
    requires
        is_normal(cs),
    ensures
        join_bytes(byte_tokens(cs)) == encode_utf8(cs),
        cs.len() > 0 ==> norm_tokens(cs).len() > 0,
    decreases cs.len(),
{
    reveal(join_bytes);
    if cs.len() > 0 {
        let c = cs.last();
        let p = cs.drop_last();
        assert(cs[cs.len() - 1] == c);
        assert(alnum(c) && lower(c) == c);
        lemma_encode_single(c);
        assert(cs =~= p + seq![c]);
        lemma_encode_concat(p, seq![c]);
        if p.len() == 0 {
            assert(norm_tokens(p) =~= Seq::<Seq<char>>::empty());
            assert(norm_tokens(cs) =~= seq![seq![c]]);
            assert(byte_tokens(cs) =~= seq![encode_utf8(seq![c])]);
            assert(encode_utf8(p) =~= seq![]);
            assert(encode_utf8(cs) =~= encode_utf8(seq![c]));
        } else if alnum(p.last()) {
            assert(p[p.len() - 1] == p.last());
            assert(cs[p.len() - 1] == p.last());
            assert(p.last() != ' ');
            assert forall|i: int| 0 <= i < p.len() implies (#[trigger] p[i] == ' ' && !alnum(p[i])) || (
            p[i] != ' ' && alnum(p[i]) && lower(p[i]) == p[i]) by {
                assert(p[i] == cs[i]);
            }
            assert forall|i: int| 0 <= i < p.len() - 1 && #[trigger] p[i] == ' ' implies p[i + 1] != ' ' by {
                assert(p[i] == cs[i] && p[i + 1] == cs[i + 1]);
            }
            assert(p[0] == cs[0]);
            lemma_normal_text_fixed(p);
            let t = norm_tokens(p);
            assert(norm_tokens(cs) == t.update(t.len() - 1, t.last().push(c)));
            lemma_encode_concat(t.last(), seq![c]);
            assert(t.last().push(c) =~= t.last() + seq![c]);
            let bt = byte_tokens(p);
            assert(byte_tokens(cs) =~= bt.update(bt.len() - 1, bt.last() + encode_utf8(seq![c])));
            lemma_join_extend(bt, encode_utf8(seq![c]));
        } else {
            assert(p[p.len() - 1] == p.last());
            assert(p.last() == ' ');
            assert(p.len() >= 2) by {
                assert(p[0] == cs[0]);
            }
            let q = p.drop_last();
            assert(cs[p.len() - 1] == ' ');
            assert(cs[p.len() - 2] != ' ');
            assert forall|i: int| 0 <= i < q.len() implies (#[trigger] q[i] == ' ' && !alnum(q[i])) || (
            q[i] != ' ' && alnum(q[i]) && lower(q[i]) == q[i]) by {
                assert(q[i] == cs[i]);
            }
            assert forall|i: int| 0 <= i < q.len() - 1 && #[trigger] q[i] == ' ' implies q[i + 1] != ' ' by {
                assert(q[i] == cs[i] && q[i + 1] == cs[i + 1]);
            }
            assert(q[0] == cs[0]);
            assert(q.last() == cs[p.len() - 2]);
            lemma_normal_text_fixed(q);
            assert(norm_tokens(p) == norm_tokens(q));
            let t = norm_tokens(q);
            assert(norm_tokens(cs) == t.push(seq![c]));
            let bt = byte_tokens(q);
            assert(byte_tokens(cs) =~= bt.push(encode_utf8(seq![c])));
            lemma_join_push(bt, encode_utf8(seq![c]));
            lemma_encode_single(' ');
            assert(32u32 & 0x7Fu32 == 32u32) by (bit_vector);
            assert(encode_utf8(seq![' ']) =~= seq![SEP]);
            assert(p =~= q + seq![' ']);
            lemma_encode_concat(q, seq![' ']);
        }
    }
}

proof fn lemma_encode_single(c: char)
    ensures
        encode_utf8(seq![c]) == encode_scalar(c as u32),
        encode_utf8(seq![c]).len() > 0,
{
    let s = seq![c];
    assert(s.drop_first() =~= Seq::<char>::empty());
    assert(encode_utf8(s.drop_first()) =~= seq![]);
    assert(encode_utf8(s) =~= encode_scalar(c as u32));
}

/// The characters of the text, in order.
fn chars_of(s: &str) -> (r: Vec<char>)
    ensures
        r@ == s@,
{
    broadcast use vstd::string::axiom_spec_iter, vstd::string::next_postcondition;

    let mut it = s.chars();
    let mut out: Vec<char> = Vec::new();
    loop
        invariant
            out@ + vstd::std_specs::iter::IteratorSpec::remaining(&it) == s@,
            vstd::std_specs::iter::IteratorSpec::obeys_prophetic_iter_laws(&it),
            vstd::std_specs::iter::IteratorSpec::decrease(&it) is Some,
        ensures
            out@ == s@,
        decreases vstd::std_specs::iter::IteratorSpec::decrease(&it)->0,
    {
        let ghost before = it;
        match it.next() {
            Some(c) => {
                assert(out@.push(c) + vstd::std_specs::iter::IteratorSpec::remaining(&it) =~= out@
                    + vstd::std_specs::iter::IteratorSpec::remaining(&before));
                out.push(c);
            },
            None => {
                assert(out@ =~= s@);
                break ;
            },
        }
    }
    out
}

/// Relies on char::is_alphanumeric: true for alphabetic or numeric characters;
/// among ASCII characters exactly the letters and the digits.
#[verifier::external_body]
fn is_alnum(c: char) -> (r: bool)
    ensures
        r == alnum(c),
        (c as u32) < 128 ==> (r <==> (('a' <= c && c <= 'z') || ('A' <= c && c <= 'Z') || ('0' <= c
            && c <= '9'))),
{
    c.is_alphanumeric()
}

/// The UTF-8 encoding of one character.
pub fn utf8_of(c: char) -> (r: Vec<u8>)
    ensures
        r@ == encode_utf8(seq![c]),
{
    proof {
        lemma_encode_single(c);
        vstd::utf8::char_is_scalar(c);
    }
    let v = c as u32;
    let mut out: Vec<u8> = Vec::new();
    if v <= 0x7F {
        out.push((v & 0x7F) as u8);
    } else if v <= 0x7FF {
        out.push(0xC0u8 | ((v >> 6) & 0x1F) as u8);
        out.push(0x80u8 | (v & 0x3F) as u8);
    } else if v <= 0xFFFF {
        out.push(0xE0u8 | ((v >> 12) & 0x0F) as u8);
        out.push(0x80u8 | ((v >> 6) & 0x3F) as u8);
        out.push(0x80u8 | (v & 0x3F) as u8);
    } else {
        out.push(0xF0u8 | ((v >> 18) & 0x7) as u8);
        out.push(0x80u8 | ((v >> 12) & 0x3F) as u8);
        out.push(0x80u8 | ((v >> 6) & 0x3F) as u8);
        out.push(0x80u8 | (v & 0x3F) as u8);
    }
    assert(out@ =~= encode_scalar(v));
    out
}

/// Folds ASCII upper-case letters to lower case.
pub fn to_lower(c: char) -> (r: char)
    ensures
        r == lower(c),
{
    if 'A' <= c && c <= 'Z' {
        ((c as u8) + 32u8) as char
    } else {
        c
    }
}

/// Normalizes characters whose classes are given: `flags[i]` says whether
/// `cs[i]` is alphanumeric. The count is the number of separators emitted.
pub fn normalize_classified(cs: &Vec<char>, flags: &Vec<bool>) -> (r: (NormalizedText, usize))
    requires
        cs@.len() == flags@.len(),
    ensures
        r.0.wf(),
        r.0.tokens() == class_byte_tokens(cs@, flags@),
        r.0.bytes@ == join_bytes(r.0.tokens()),
        r.1 == (if r.0.token_count() > 0 { r.0.token_count() - 1 } else { 0 }),
{
    let mut out = NormalizedText { bytes: Vec::new(), spans: Vec::new() };
    let mut in_word: bool = false;
    let mut i: usize = 0;
    proof {
        reveal(join_bytes);
        assert(cs@.take(0) =~= Seq::<char>::empty());
        assert(out.tokens() =~= class_byte_tokens(cs@.take(0), flags@.take(0)));
    }
    while i < cs.len()
        invariant
            cs@.len() == flags@.len(),
            0 <= i <= cs@.len(),
            out.wf(),
            out.tokens() == class_byte_tokens(cs@.take(i as int), flags@.take(i as int)),
            out.bytes@ == join_bytes(out.tokens()),
            in_word == (i > 0 && flags@[i - 1]),
            in_word ==> out.spans@.len() > 0,
        decreases cs@.len() - i,
    {
        let c = cs[i];
        let ghost pre = cs@.take(i as int);
        let ghost fpre = flags@.take(i as int);
        let ghost nt = class_tokens(pre, fpre);
        assert(cs@.take(i + 1).drop_last() =~= pre);
        assert(cs@.take(i + 1).last() == c);
        assert(flags@.take(i + 1).drop_last() =~= fpre);
        assert(flags@.take(i + 1).last() == flags@[i as int]);
        proof {
            if i > 0 {
                assert(fpre.last() == flags@[i - 1]);
            }
        }
        let a = flags[i];
        if a {
            let lc = to_lower(c);
            let enc = utf8_of(lc);
            proof {
                lemma_encode_single(lc);
            }
            if in_word {
                let ghost before = out;
                out.extend_last(enc);
                proof {
                    lemma_join_extend(before.tokens(), encode_utf8(seq![lc]));
                    lemma_encode_concat(nt.last(), seq![lc]);
                    assert(nt.last().push(lc) =~= nt.last() + seq![lc]);
                    assert(class_tokens(cs@.take(i + 1), flags@.take(i + 1)) == nt.update(nt.len() - 1, nt.last().push(lc)));
                    assert(out.tokens() =~= class_byte_tokens(cs@.take(i + 1), flags@.take(i + 1)));
                }
            } else {
                let ghost before = out;
                out.push_token(enc);
                proof {
                    lemma_join_push_bytes(
                        before.tokens(),
                        encode_utf8(seq![lc]),
                        before.bytes@,
                        sep_before(before.spans@.len()),
                        out.bytes@,
                    );
                    assert(class_tokens(cs@.take(i + 1), flags@.take(i + 1)) == nt.push(seq![lc]));
                    assert(out.tokens() =~= class_byte_tokens(cs@.take(i + 1), flags@.take(i + 1)));
                }
            }
            in_word = true;
        } else {
            in_word = false;
            proof {
                assert(out.tokens() =~= class_byte_tokens(cs@.take(i + 1), flags@.take(i + 1)));
            }
        }
        i = i + 1;
    }
    assert(cs@.take(i as int) =~= cs@);
    assert(flags@.take(i as int) =~= flags@);
    let n = if out.spans.len() > 0 { out.spans.len() - 1 } else { 0 };
    (out, n)
}

/// Normalizes raw text: alphanumeric runs, lower-cased, joined by single
/// spaces. The count is the number of separators emitted.
pub fn sanitize_words(contents: &str) -> (r: (NormalizedText, usize))
    ensures
        r.0.wf(),
        r.0.tokens() == byte_tokens(contents@),
        r.0.bytes@ == join_bytes(r.0.tokens()),
        r.1 == (if r.0.token_count() > 0 { r.0.token_count() - 1 } else { 0 }),
{
    let cs = chars_of(contents);
    let mut flags: Vec<bool> = Vec::new();
    let mut i: usize = 0;
    while i < cs.len()
        invariant
            0 <= i <= cs@.len(),
            flags@ == alnum_flags(cs@.take(i as int)),
        decreases cs@.len() - i,
    {
        let a = is_alnum(cs[i]);
        flags.push(a);
        i = i + 1;
        assert(flags@ =~= alnum_flags(cs@.take(i as int)));
    }
    assert(cs@.take(i as int) =~= cs@);
    proof {
        lemma_class_tokens_alnum(cs@);
    }
    normalize_classified(&cs, &flags)
}

impl NormalizedText {
    /// Appends bytes to the last token.
    fn extend_last(&mut self, enc: Vec<u8>)
        requires
            old(self).wf(),
            old(self).spans@.len() > 0,
            enc@.len() > 0,
        ensures
            final(self).wf(),
            final(self).bytes@ == old(self).bytes@ + enc@,
            final(self).tokens() == old(self).tokens().update(
                old(self).spans@.len() - 1,
                old(self).tokens().last() + enc@,
            ),
    {
        let ghost added = enc@;
        let mut buf = enc;
        let ghost old_bytes = self.bytes@;
        let ghost old_spans = self.spans@;
        let k = self.spans.len() - 1;
        let s = self.spans[k].0;
        self.bytes.append(&mut buf);
        let e = self.bytes.len();
        self.spans.set(k, (s, e));
        proof {
            assert forall|j: int| 0 <= j < k implies #[trigger] self.tokens()[j] == old(self).tokens()[j] by {
                if j < k - 1 {
                    assert(old_spans[j].1 + 1 == old_spans[j + 1].0);
                }
                assert(self.bytes@.subrange(self.spans@[j].0 as int, self.spans@[j].1 as int)
                    =~= old_bytes.subrange(old_spans[j].0 as int, old_spans[j].1 as int));
            }
            assert(self.tokens()[k as int] =~= old(self).tokens().last() + added);
            assert(self.tokens() =~= old(self).tokens().update(k as int, old(self).tokens().last() + added));
        }
    }

    /// Appends a new token, after a separator where one is owed.
    fn push_token(&mut self, enc: Vec<u8>)
        requires
            old(self).wf(),
            enc@.len() > 0,
        ensures
            final(self).wf(),
            final(self).tokens() == old(self).tokens().push(enc@),
            final(self).bytes@ == old(self).bytes@ + sep_before(old(self).spans@.len()) + enc@,
    {
        let ghost added = enc@;
        let mut buf = enc;
        let ghost old_bytes = self.bytes@;
        let ghost old_spans = self.spans@;
        if self.spans.len() > 0 {
            self.bytes.push(SEP);
        }
        assert(self.bytes@ =~= old_bytes + sep_before(old_spans.len()));
        let s = self.bytes.len();
        self.bytes.append(&mut buf);
        let e = self.bytes.len();
        self.spans.push((s, e));
        proof {
            assert forall|j: int| 0 <= j < old_spans.len() implies #[trigger] self.tokens()[j]
                == old(self).tokens()[j] by {
                if j < old_spans.len() - 1 {
                    assert(old_spans[j].1 + 1 == old_spans[j + 1].0);
                }
                assert(self.bytes@.subrange(self.spans@[j].0 as int, self.spans@[j].1 as int)
                    =~= old_bytes.subrange(old_spans[j].0 as int, old_spans[j].1 as int));
            }
            assert(self.tokens()[old_spans.len() as int] =~= added);
            assert(self.tokens() =~= old(self).tokens().push(added));
        }
    }
}

} // verus!
