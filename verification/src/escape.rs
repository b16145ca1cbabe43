//! JSON Pointer escaping of reference tokens (RFC 6901).
//!
//! `~` becomes `~0` and `/` becomes `~1`.  The tilde is rewritten first, so
//! that the `~1` sequences introduced for slashes are never re-escaped.

use vstd::prelude::*;
use vstd::string::StrSliceExecFns;

verus! {

use crate::value::push_char;

/// The escaping of one character: `~` as `~0`, `/` as `~1`, all else as is.
pub open spec fn escaped_char(c: char) -> Seq<char> {
    if c == '~' {
        seq!['~', '0']
    } else if c == '/' {
        seq!['~', '1']
    } else {
        seq![c]
    }
}

/// The RFC 6901 escaping of a reference token: `~` as `~0`, `/` as `~1`.
pub open spec fn pointer_escaped(s: Seq<char>) -> Seq<char>
    decreases s.len(),
{
    if s.len() == 0 {
        Seq::empty()
    } else {
        escaped_char(s[0]) + pointer_escaped(s.drop_first())
    }
}

/// The inverse substitution: `~0` back to `~` and `~1` back to `/`; any
/// other character, a trailing `~` included, is kept as it stands.
pub open spec fn pointer_unescaped(s: Seq<char>) -> Seq<char>
    decreases s.len(),
{
    if s.len() == 0 {
        Seq::empty()
    } else if s.len() >= 2 && s[0] == '~' && s[1] == '0' {
        seq!['~'] + pointer_unescaped(s.skip(2))
    } else if s.len() >= 2 && s[0] == '~' && s[1] == '1' {
        seq!['/'] + pointer_unescaped(s.skip(2))
    } else {
        seq![s[0]] + pointer_unescaped(s.drop_first())
    }
}

/// Undoing the `~0`/`~1` substitution on an escaped token recovers the
/// original token exactly, whether it held `~`, `/`, both or neither.
pub proof fn lemma_pointer_escape_round_trip(s: Seq<char>)
    ensures
        pointer_unescaped(pointer_escaped(s)) == s,
    decreases s.len(),
{
    if s.len() == 0 {
        assert(pointer_unescaped(pointer_escaped(s)) =~= s);
    } else {
        lemma_pointer_escape_round_trip(s.drop_first());
        let rest = pointer_escaped(s.drop_first());
        if s[0] == '~' {
            assert(pointer_escaped(s) == seq!['~', '0'] + rest);
            assert((seq!['~', '0'] + rest).skip(2) =~= rest);
            assert(pointer_unescaped(pointer_escaped(s)) =~= s);
        } else if s[0] == '/' {
            assert(pointer_escaped(s) == seq!['~', '1'] + rest);
            assert((seq!['~', '1'] + rest).skip(2) =~= rest);
            assert(pointer_unescaped(pointer_escaped(s)) =~= s);
        } else {
            assert(pointer_escaped(s) == seq![s[0]] + rest);
            let e = pointer_escaped(s);
            assert(e[0] == s[0]);
            if e.len() >= 2 && e[0] == '~' && (e[1] == '0' || e[1] == '1') {
                assert(false);
            }
            assert(e.drop_first() =~= rest);
            assert(pointer_unescaped(pointer_escaped(s)) =~= s);
        }
    }
}

/// Escape one reference token for use inside a JSON Pointer.
pub fn pointer_escape(s: &str) -> (r: String)
    ensures
        r@ == pointer_escaped(s@),
{
    let n = s.unicode_len();
    let mut out = String::new();
    let mut i: usize = 0;
    while i < n
        invariant
            n == s@.len(),
            i <= n,
            out@ == pointer_escaped(s@.take(i as int)),
        decreases n - i,
    {
        let c = s.get_char(i);
        let ghost out0 = out@;
        if c == '~' {
            push_char(&mut out, '~');
            push_char(&mut out, '0');
        } else if c == '/' {
            push_char(&mut out, '~');
            push_char(&mut out, '1');
        } else {
            push_char(&mut out, c);
        }
        proof {
            assert(out@ =~= out0 + escaped_char(c));
            lemma_pointer_escaped_snoc(s@.take(i as int), c);
            assert(s@.take(i as int).push(c) =~= s@.take((i + 1) as int));
        }
        i = i + 1;
    }
    proof {
        assert(s@.take(n as int) =~= s@);
    }
    out
}

/// Escaping distributes over appending one character at the end.
proof fn lemma_pointer_escaped_snoc(s: Seq<char>, c: char)
    ensures
        pointer_escaped(s.push(c)) == pointer_escaped(s) + escaped_char(c),
    decreases s.len(),
{
    if s.len() == 0 {
        assert(s.push(c).len() == 1);
        assert(s.push(c)[0] == c);
        assert(s.push(c).drop_first() =~= Seq::<char>::empty());
        assert(pointer_escaped(s.push(c)) == escaped_char(c) + pointer_escaped(
            Seq::<char>::empty(),
        ));
        assert(pointer_escaped(s) == Seq::<char>::empty());
        assert(escaped_char(c) + Seq::<char>::empty() =~= Seq::<char>::empty() + escaped_char(c));
    } else {
        assert(s.push(c).len() == s.len() + 1);
        assert(s.push(c)[0] == s[0]);
        assert(s.push(c).drop_first() =~= s.drop_first().push(c));
        lemma_pointer_escaped_snoc(s.drop_first(), c);
        assert(pointer_escaped(s.push(c)) == escaped_char(s[0]) + pointer_escaped(
            s.drop_first().push(c),
        ));
        assert(pointer_escaped(s.drop_first().push(c)) == pointer_escaped(s.drop_first())
            + escaped_char(c));
        assert(escaped_char(s[0]) + (pointer_escaped(s.drop_first()) + escaped_char(c)) =~= (
        escaped_char(s[0]) + pointer_escaped(s.drop_first())) + escaped_char(c));
        assert(pointer_escaped(s) == escaped_char(s[0]) + pointer_escaped(s.drop_first()));
    }
}

} // verus!
