use vstd::prelude::*;
use crate::text::{chars_of, push_char};

verus! {

/// What the escape sequence `\c` stands for: `\n`, `\t`, `\r`, `\\` and `\"` are resolved;
/// any other escape is kept as written, backslash included.
pub open spec fn spec_escape(c: char) -> Seq<char> {
    if c == 'n' {
        seq!['\n']
    } else if c == 't' {
        seq!['\t']
    } else if c == 'r' {
        seq!['\r']
    } else if c == '\\' {
        seq!['\\']
    } else if c == '"' {
        seq!['"']
    } else {
        seq!['\\', c]
    }
}

/// The body of a string literal with its escape sequences resolved, read from left to
/// right. A backslash that ends the text is dropped.
pub open spec fn spec_unescape(s: Seq<char>) -> Seq<char>
    decreases s.len(),
{
    if s.len() == 0 {
        Seq::empty()
    } else if s[0] == '\\' {
        if s.len() == 1 {
            Seq::empty()
        } else {
            spec_escape(s[1]) + spec_unescape(s.skip(2))
        }
    } else {
        seq![s[0]] + spec_unescape(s.skip(1))
    }
}

/// Resolves the escape sequences of `v[from..to]`.
pub fn unescape_chars(v: &Vec<char>, from: usize, to: usize) -> (res: String)
    requires
        from <= to <= v@.len(),
    ensures
        res@ == spec_unescape(v@.subrange(from as int, to as int)),
{
    let ghost whole = v@.subrange(from as int, to as int);
    let mut res = String::new();
    let mut i = from;
    while i < to
        invariant
            from <= i <= to <= v@.len(),
            whole == v@.subrange(from as int, to as int),
            res@ + spec_unescape(v@.subrange(i as int, to as int)) == spec_unescape(whole),
        decreases to - i,
    {
        let ghost rest = v@.subrange(i as int, to as int);
        let ghost old_res = res@;
        let c = v[i];
        if c == '\\' {
            if i + 1 < to {
                let e = v[i + 1];
                assert(rest.skip(2) =~= v@.subrange(i + 2, to as int));
                if e == 'n' {
                    push_char(&mut res, '\n');
                } else if e == 't' {
                    push_char(&mut res, '\t');
                } else if e == 'r' {
                    push_char(&mut res, '\r');
                } else if e == '\\' {
                    push_char(&mut res, '\\');
                } else if e == '"' {
                    push_char(&mut res, '"');
                } else {
                    push_char(&mut res, '\\');
                    push_char(&mut res, e);
                }
                assert(spec_escape(e) + spec_unescape(rest.skip(2)) == spec_unescape(rest));
                assert(res@ == old_res + spec_escape(e));
                assert(res@ + spec_unescape(v@.subrange(i + 2, to as int)) =~= old_res + (
                spec_escape(e) + spec_unescape(rest.skip(2))));
                i = i + 2;
            } else {
                assert(v@.subrange((i + 1) as int, to as int) =~= Seq::<char>::empty());
                i = i + 1;
            }
        } else {
            assert(rest.skip(1) =~= v@.subrange(i + 1, to as int));
            push_char(&mut res, c);
            assert(res@ + spec_unescape(v@.subrange(i + 1, to as int)) =~= old_res + (seq![c]
                + spec_unescape(rest.skip(1))));
            i = i + 1;
        }
    }
    assert(v@.subrange(to as int, to as int) =~= Seq::<char>::empty());
    assert(res@ =~= res@ + spec_unescape(Seq::<char>::empty()));
    res
}

/// Resolves the escape sequences of the body of a string literal: `\n`, `\t`, `\r`, `\\`
/// and `\"` stand for newline, tab, carriage return, backslash and quote; any other escape
/// is kept as written, and a backslash that ends the text is dropped.
pub fn unescape_string(s: &str) -> (res: String)
    ensures
        res@ == spec_unescape(s@),
{
    let v = chars_of(s);
    assert(v@.subrange(0, v@.len() as int) =~= v@);
    unescape_chars(&v, 0, v.len())
}

/// The number of backslashes that `s` ends with.
pub open spec fn trailing_backslashes(s: Seq<char>) -> nat
    decreases s.len(),
{
    if s.len() > 0 && s.last() == '\\' {
        1 + trailing_backslashes(s.drop_last())
    } else {
        0
    }
}

/// The trailing backslashes are a run at the end of `s`, with no backslash before it.
pub proof fn lemma_trailing_backslashes(s: Seq<char>)
    ensures
        trailing_backslashes(s) <= s.len(),
        forall|i: int| s.len() - trailing_backslashes(s) <= i < s.len() ==> #[trigger] s[i] == '\\',
        trailing_backslashes(s) < s.len() ==> s[s.len() - 1 - trailing_backslashes(s)] != '\\',
    decreases s.len(),
{
    if s.len() > 0 && s.last() == '\\' {
        let d = s.drop_last();
        lemma_trailing_backslashes(d);
        assert forall|i: int| s.len() - trailing_backslashes(s) <= i < s.len() implies #[trigger] s[i]
            == '\\' by {
            if i < s.len() - 1 {
                assert(s[i] == d[i]);
            }
        }
        if trailing_backslashes(s) < s.len() {
            assert(s[s.len() - 1 - trailing_backslashes(s)] == d[d.len() - 1 - trailing_backslashes(d)]);
        }
    }
}

/// Dropping the first `k` characters keeps the trailing run, as far as it reaches.
pub proof fn lemma_trailing_backslashes_skip(s: Seq<char>, k: int)
    requires
        0 <= k <= s.len(),
    ensures
        trailing_backslashes(s.skip(k)) == if trailing_backslashes(s) <= s.len() - k {
            trailing_backslashes(s)
        } else {
            (s.len() - k) as nat
        },
    decreases s.len(),
{
    lemma_trailing_backslashes(s);
    if k < s.len() {
        let d = s.drop_last();
        assert(s.skip(k).drop_last() =~= d.skip(k));
        assert(s.skip(k).last() == s.last());
        lemma_trailing_backslashes_skip(d, k);
    } else {
        assert(s.skip(k).len() == 0);
    }
}

/// Unescaping splits at a boundary that no escape sequence crosses: where `a` ends in an
/// even number of backslashes (none included), unescaping `a` then `b` gives the unescaped
/// `a` followed by the unescaped `b`.
pub proof fn law_unescape_concat(a: Seq<char>, b: Seq<char>)
    requires
        trailing_backslashes(a) % 2 == 0,
    ensures
        spec_unescape(a + b) == spec_unescape(a) + spec_unescape(b),
    decreases a.len(),
{
    lemma_trailing_backslashes(a);
    if a.len() == 0 {
        assert(a + b =~= b);
        assert(spec_unescape(a) + spec_unescape(b) =~= spec_unescape(b));
    } else if a[0] == '\\' {
        if a.len() == 1 {
            assert(a.last() == '\\');
            assert(trailing_backslashes(a.drop_last()) == 0);
        }
        assert(a.len() >= 2);
        let t = a.skip(2);
        lemma_trailing_backslashes_skip(a, 2);
        assert((a + b)[0] == '\\');
        assert((a + b)[1] == a[1]);
        assert((a + b).skip(2) =~= t + b);
        law_unescape_concat(t, b);
        assert(spec_unescape(a + b) =~= spec_unescape(a) + spec_unescape(b));
    } else {
        let t = a.skip(1);
        lemma_trailing_backslashes_skip(a, 1);
        assert((a + b)[0] == a[0]);
        assert((a + b).skip(1) =~= t + b);
        law_unescape_concat(t, b);
        assert(spec_unescape(a + b) =~= spec_unescape(a) + spec_unescape(b));
    }
}

/// The five escapes that are resolved: `\n`, `\t`, `\r`, `\\` and `\"` stand for a
/// newline, a tab, a carriage return, one backslash and a quote.
pub proof fn law_unescape_known_escapes()
    ensures
        spec_unescape(seq!['\\', 'n']) == seq!['\n'],
        spec_unescape(seq!['\\', 't']) == seq!['\t'],
        spec_unescape(seq!['\\', 'r']) == seq!['\r'],
        spec_unescape(seq!['\\', '\\']) == seq!['\\'],
        spec_unescape(seq!['\\', '"']) == seq!['"'],
{
    reveal_with_fuel(spec_unescape, 2);
    assert(seq!['\\', 'n'].skip(2) =~= Seq::<char>::empty());
    assert(seq!['\\', 't'].skip(2) =~= Seq::<char>::empty());
    assert(seq!['\\', 'r'].skip(2) =~= Seq::<char>::empty());
    assert(seq!['\\', '\\'].skip(2) =~= Seq::<char>::empty());
    assert(seq!['\\', '"'].skip(2) =~= Seq::<char>::empty());
    assert(seq!['\n'] + Seq::<char>::empty() =~= seq!['\n']);
    assert(seq!['\t'] + Seq::<char>::empty() =~= seq!['\t']);
    assert(seq!['\r'] + Seq::<char>::empty() =~= seq!['\r']);
    assert(seq!['\\'] + Seq::<char>::empty() =~= seq!['\\']);
    assert(seq!['"'] + Seq::<char>::empty() =~= seq!['"']);
}

/// Any other escape is kept as written: for a character `c` other than `n`, `t`, `r`,
/// backslash and quote, unescaping a backslash then `c` gives back those two characters.
pub proof fn law_unescape_other_escape(c: char)
    requires
        c != 'n',
        c != 't',
        c != 'r',
        c != '\\',
        c != '"',
    ensures
        spec_unescape(seq!['\\', c]) == seq!['\\', c],
{
    reveal_with_fuel(spec_unescape, 2);
    assert(spec_escape(c) == seq!['\\', c]);
    assert(spec_unescape(Seq::<char>::empty()) == Seq::<char>::empty());
    assert(seq!['\\', c].skip(2) =~= Seq::<char>::empty());
    assert(seq!['\\', c] + Seq::<char>::empty() =~= seq!['\\', c]);
}

/// Text without a backslash is its own unescaping.
pub proof fn law_unescape_plain(s: Seq<char>)
    requires
        forall|i: int| 0 <= i < s.len() ==> s[i] != '\\',
    ensures
        spec_unescape(s) == s,
    decreases s.len(),
{
    if s.len() > 0 {
        let t = s.skip(1);
        assert forall|i: int| 0 <= i < t.len() implies t[i] != '\\' by {
            assert(t[i] == s[i + 1]);
        }
        law_unescape_plain(t);
        assert(seq![s[0]] + t =~= s);
    }
}

} // verus!
