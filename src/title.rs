use vstd::prelude::*;

verus! {

/// Whether a character is whitespace: Unicode's `White_Space` property,
/// the set that `char::is_whitespace` tests.
pub open spec fn is_white(c: char) -> bool {
    let u = c as u32;
    ||| 0x09 <= u <= 0x0D
    ||| u == 0x20
    ||| u == 0x85
    ||| u == 0xA0
    ||| u == 0x1680
    ||| 0x2000 <= u <= 0x200A
    ||| u == 0x2028
    ||| u == 0x2029
    ||| u == 0x202F
    ||| u == 0x205F
    ||| u == 0x3000
}

/// Executable test for `is_white`.
pub fn is_whitespace(c: char) -> (r: bool)
    ensures
        r == is_white(c),
{
    let u = c as u32;
    (0x09 <= u && u <= 0x0D) || u == 0x20 || u == 0x85 || u == 0xA0 || u == 0x1680 || (0x2000
        <= u && u <= 0x200A) || u == 0x2028 || u == 0x2029 || u == 0x202F || u == 0x205F || u
        == 0x3000
}

/// Whether a character is ASCII.
pub open spec fn is_ascii_char(c: char) -> bool {
    (c as u32) < 128
}

/// The capital of an ASCII lower-case letter; any other character unchanged.
pub open spec fn ascii_upper(c: char) -> char {
    if 'a' <= c <= 'z' {
        ((c as u32) - 32) as char
    } else {
        c
    }
}

/// The Unicode uppercase mapping of a non-ASCII character.
pub uninterp spec fn upper_of(c: char) -> Seq<char>;

/// The uppercase mapping of a character: the capital for an ASCII letter,
/// the character itself for other ASCII characters, Unicode's mapping
/// otherwise.
pub open spec fn upper_seq(c: char) -> Seq<char> {
    if is_ascii_char(c) {
        seq![ascii_upper(c)]
    } else {
        upper_of(c)
    }
}

/// Relies on `char::to_uppercase`: the uppercase mapping of a character,
/// which for ASCII letters is their capital and leaves other ASCII
/// characters as they are.
#[verifier::external_body]
fn uppercase(c: char) -> (r: String)
    ensures
        is_ascii_char(c) ==> r@ == seq![ascii_upper(c)],
        !is_ascii_char(c) ==> r@ == upper_of(c),
{
    c.to_uppercase().collect()
}

/// Relies on `String::push`: appends one character.
#[verifier::external_body]
pub(crate) fn push_char(s: &mut String, c: char)
    ensures
        final(s)@ == old(s)@.push(c),
{
    s.push(c)
}

/// The whitespace-separated words of `s`, in order, none of them empty.
pub open spec fn words(s: Seq<char>) -> Seq<Seq<char>>
    decreases s.len(),
{
    if s.len() == 0 {
        seq![]
    } else {
        let p = s.drop_last();
        let c = s.last();
        if is_white(c) {
            words(p)
        } else if p.len() > 0 && !is_white(p.last()) {
            let w = words(p);
            w.drop_last().push(w.last().push(c))
        } else {
            words(p).push(seq![c])
        }
    }
}

/// A word with its first character mapped to upper case.
pub open spec fn capitalized(w: Seq<char>) -> Seq<char> {
    if w.len() == 0 {
        w
    } else {
        upper_seq(w[0]) + w.drop_first()
    }
}

/// Words joined by single spaces.
pub open spec fn joined(ws: Seq<Seq<char>>) -> Seq<char>
    decreases ws.len(),
{
    if ws.len() == 0 {
        seq![]
    } else if ws.len() == 1 {
        ws[0]
    } else {
        joined(ws.drop_last()) + seq![' '] + ws.last()
    }
}

/// Title case: each word capitalized, words joined by single spaces.
pub open spec fn title_of(s: Seq<char>) -> Seq<char> {
    joined(words(s).map_values(|w: Seq<char>| capitalized(w)))
}

/// A string that ends in a character that is not whitespace has a word.
pub proof fn lemma_words_nonempty(s: Seq<char>)
    requires
        s.len() > 0,
        !is_white(s.last()),
    ensures
        words(s).len() > 0,
    decreases s.len(),
{
    let p = s.drop_last();
    if p.len() > 0 && !is_white(p.last()) {
        lemma_words_nonempty(p);
    }
}

/// Every word is non-empty and free of whitespace, and where `s` is ASCII
/// so is every word.
pub proof fn lemma_words_shape(s: Seq<char>)
    ensures
        forall|k: int|
            0 <= k < words(s).len() ==> {
                &&& (#[trigger] words(s)[k]).len() > 0
                &&& forall|j: int| 0 <= j < words(s)[k].len() ==> !is_white(#[trigger] words(s)[k][j])
                &&& (forall|m: int| 0 <= m < s.len() ==> is_ascii_char(#[trigger] s[m]))
                    ==> forall|j: int| 0 <= j < words(s)[k].len() ==> is_ascii_char(#[trigger] words(s)[k][j])
            },
    decreases s.len(),
{
    if s.len() > 0 {
        let p = s.drop_last();
        lemma_words_shape(p);
        let c = s.last();
        if (forall|m: int| 0 <= m < s.len() ==> is_ascii_char(#[trigger] s[m])) {
            assert forall|m: int| 0 <= m < p.len() implies is_ascii_char(#[trigger] p[m]) by {
                assert(p[m] == s[m]);
            }
            assert(is_ascii_char(s[s.len() - 1]));
        }
        if !is_white(c) && p.len() > 0 && !is_white(p.last()) {
            lemma_words_nonempty(p);
            let w = words(p);
            assert(words(s) == w.drop_last().push(w.last().push(c)));
            assert forall|k: int| 0 <= k < words(s).len() implies (#[trigger] words(s)[k]) == if k
                < w.len() - 1 {
                w[k]
            } else {
                w.last().push(c)
            } by {}
        }
    }
}

/// Appending a whitespace character leaves the words unchanged.
proof fn lemma_words_white(p: Seq<char>, c: char)
    requires
        is_white(c),
    ensures
        words(p.push(c)) == words(p),
{
    assert(p.push(c).drop_last() =~= p);
}

/// Appending a word after whitespace (or to nothing) adds it as the last word.
proof fn lemma_words_append(p: Seq<char>, v: Seq<char>)
    requires
        p.len() == 0 || is_white(p.last()),
        v.len() > 0,
        forall|j: int| 0 <= j < v.len() ==> !is_white(#[trigger] v[j]),
    ensures
        words(p + v) == words(p).push(v),
    decreases v.len(),
{
    let u = v.drop_last();
    assert((p + v).drop_last() =~= p + u);
    assert((p + v).last() == v.last());
    assert(!is_white(v[v.len() - 1]));
    if v.len() == 1 {
        assert(p + u =~= p);
        assert(seq![v.last()] =~= v);
    } else {
        lemma_words_append(p, u);
        assert((p + u).last() == u[u.len() - 1]);
        assert(u.push(v.last()) =~= v);
    }
}

/// Joining words that are non-empty and free of whitespace, then splitting
/// the result, gives the words back.
proof fn lemma_words_joined(cs: Seq<Seq<char>>)
    requires
        forall|k: int|
            0 <= k < cs.len() ==> {
                &&& (#[trigger] cs[k]).len() > 0
                &&& forall|j: int| 0 <= j < cs[k].len() ==> !is_white(#[trigger] cs[k][j])
            },
    ensures
        words(joined(cs)) == cs,
    decreases cs.len(),
{
    if cs.len() == 0 {
        assert(words(joined(cs)) =~= cs);
    } else if cs.len() == 1 {
        let e: Seq<char> = seq![];
        lemma_words_append(e, cs[0]);
        assert(e + cs[0] =~= cs[0]);
        assert(e.len() == 0);
        assert(words(e) =~= Seq::<Seq<char>>::empty());
        assert(words(e).push(cs[0]) =~= cs);
    } else {
        let d = cs.drop_last();
        lemma_words_joined(d);
        let q = joined(d);
        lemma_words_white(q, ' ');
        assert(cs.last() == cs[cs.len() - 1]);
        lemma_words_append(q.push(' '), cs.last());
        assert(q + seq![' '] + cs.last() =~= q.push(' ') + cs.last());
        assert(d.push(cs.last()) =~= cs);
    }
}

/// Title case is idempotent on ASCII text: applying `to_title` to its own
/// result changes nothing.
pub proof fn lemma_title_idempotent(s: Seq<char>)
    requires
        forall|m: int| 0 <= m < s.len() ==> is_ascii_char(#[trigger] s[m]),
    ensures
        title_of(title_of(s)) == title_of(s),
{
    let ws = words(s);
    let cs = ws.map_values(|w: Seq<char>| capitalized(w));
    lemma_words_shape(s);
    assert forall|k: int| 0 <= k < cs.len() implies {
        &&& (#[trigger] cs[k]).len() > 0
        &&& forall|j: int| 0 <= j < cs[k].len() ==> !is_white(#[trigger] cs[k][j])
        &&& capitalized(cs[k]) == cs[k]
    } by {
        let w = ws[k];
        assert(is_ascii_char(w[0]));
        let a = ascii_upper(w[0]);
        assert(cs[k] == seq![a] + w.drop_first());
        assert forall|j: int| 0 <= j < cs[k].len() implies !is_white(#[trigger] cs[k][j]) by {
            if j > 0 {
                assert(cs[k][j] == w[j]);
            }
        }
        assert(cs[k][0] == a);
        assert(is_ascii_char(a));
        assert(ascii_upper(a) == a);
        assert(capitalized(cs[k]) =~= cs[k]);
    }
    lemma_words_joined(cs);
    assert(words(title_of(s)).map_values(|w: Seq<char>| capitalized(w)) =~= cs);
}

/// Title case of a string: every whitespace-separated word gets its first
/// character in upper case, and the words are joined by single spaces.
pub fn to_title(s: &str) -> (r: String)
    ensures
        r@ == title_of(s@),
{
    let n = s.unicode_len();
    let mut out = String::new();
    let mut prev_white = true;
    let mut any = false;
    let mut i: usize = 0;
    while i < n
        invariant
            n == s@.len(),
            0 <= i <= n,
            out@ == title_of(s@.take(i as int)),
            prev_white == (i == 0 || is_white(s@[i - 1])),
            any == (words(s@.take(i as int)).len() > 0),
        decreases n - i,
    {
        let c = s.get_char(i);
        let ghost p = s@.take(i as int);
        let ghost t = s@.take(i + 1);
        assert(t.drop_last() =~= p);
        assert(t.last() == c);
        let ghost ws = words(p);
        let ghost cs = ws.map_values(|w: Seq<char>| capitalized(w));
        if is_whitespace(c) {
            prev_white = true;
        } else {
            if prev_white {
                if any {
                    push_char(&mut out, ' ');
                }
                let u = uppercase(c);
                assert(u@ == upper_seq(c));
                out.append(u.as_str());
                proof {
                    let cs2 = words(t).map_values(|w: Seq<char>| capitalized(w));
                    assert(words(t) == ws.push(seq![c]));
                    assert(cs2 =~= cs.push(upper_seq(c)));
                    assert(cs2.drop_last() =~= cs);
                    assert(out@ =~= joined(cs2));
                }
            } else {
                push_char(&mut out, c);
                proof {
                    lemma_words_nonempty(p);
                    let w = ws.last();
                    let cs2 = words(t).map_values(|w: Seq<char>| capitalized(w));
                    assert(words(t) == ws.drop_last().push(w.push(c)));
                    assert(w.len() > 0);
                    assert(capitalized(w.push(c)) =~= capitalized(w).push(c));
                    assert(cs2 =~= cs.drop_last().push(capitalized(w).push(c)));
                    if cs.len() == 1 {
                        assert(out@ =~= joined(cs2));
                    } else {
                        assert(cs2.drop_last() =~= cs.drop_last());
                        assert(out@ =~= joined(cs2));
                    }
                }
            }
            prev_white = false;
            any = true;
        }
        i = i + 1;
    }
    assert(s@.take(n as int) =~= s@);
    out
}

} // verus!
