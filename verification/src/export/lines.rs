//! Text as lines.

use vstd::prelude::*;
use vstd::utf8;
use crate::export;
use crate::text;

verus! {

/// The first `n` characters, as the lines that have ended and the one that has
/// not.
pub open spec fn scanned(t: Seq<char>, n: nat) -> (Seq<Seq<char>>, Seq<char>)
    decreases n,
{
    if n == 0 {
        (Seq::empty(), Seq::empty())
    } else {
        let (whole, open) = scanned(t, (n - 1) as nat);
        if t[n - 1] == '\n' {
            (whole.push(open), Seq::empty())
        } else {
            (whole, open.push(t[n - 1]))
        }
    }
}

/// The lines of a text, without the characters that end them.
pub open spec fn lines(t: Seq<char>) -> Seq<Seq<char>> {
    let (whole, open) = scanned(t, t.len());
    if open.len() == 0 {
        whole
    } else {
        whole.push(open)
    }
}

/// Lines, each with its end.
pub open spec fn ended(l: Seq<Seq<char>>) -> Seq<char>
    decreases l.len(),
{
    if l.len() == 0 {
        Seq::empty()
    } else {
        ended(l.drop_last()) + l.last().push('\n')
    }
}

/// What was scanned does not depend on what follows.
proof fn lemma_prefix(a: Seq<char>, b: Seq<char>, n: nat)
    requires
        n <= a.len(),
    ensures
        scanned(a + b, n) == scanned(a, n),
    decreases n,
{
    if n > 0 {
        lemma_prefix(a, b, (n - 1) as nat);
    }
}

/// A piece without a line end goes into the open line.
proof fn lemma_open(a: Seq<char>, b: Seq<char>, n: nat)
    requires
        text::unbroken(b),
        n <= b.len(),
    ensures
        scanned(a + b, a.len() + n).0 == scanned(a, a.len()).0,
        scanned(a + b, a.len() + n).1 == scanned(a, a.len()).1 + b.take(n as int),
    decreases n,
{
    let open = scanned(a, a.len()).1;
    if n == 0 {
        lemma_prefix(a, b, a.len());
        assert(open + b.take(0) =~= open);
    } else {
        lemma_open(a, b, (n - 1) as nat);
        let c = b[n - 1];
        assert(b.contains(c));
        assert((a + b)[a.len() + n - 1] == c);
        assert((a.len() + n - 1) as nat == a.len() + (n - 1) as nat);
        assert(open + b.take(n as int) =~= (open + b.take(n - 1)).push(c));
    }
}

/// Unbroken lines with their ends are found again.
pub proof fn lemma_lines(l: Seq<Seq<char>>)
    requires
        forall|i: int| 0 <= i < l.len() ==> text::unbroken(#[trigger] l[i]),
    ensures
        lines(ended(l)) == l,
        scanned(ended(l), ended(l).len()) == (l, Seq::<char>::empty()),
    decreases l.len(),
{
    if l.len() > 0 {
        let d = l.drop_last();
        assert forall|i: int| 0 <= i < d.len() implies text::unbroken(#[trigger] d[i]) by {
            assert(d[i] == l[i]);
        }
        lemma_lines(d);
        let a = ended(d);
        let b = l.last();
        assert(text::unbroken(l[l.len() - 1]));
        lemma_open(a, b, b.len());
        assert(b.take(b.len() as int) =~= b);
        assert(Seq::<char>::empty() + b =~= b);
        let t = a + b;
        assert(ended(l) =~= t + seq!['\n']);
        lemma_prefix(t, seq!['\n'], t.len());
        assert(d.push(b) =~= l);
    } else {
        assert(l =~= Seq::empty());
    }
}

/// Encoding goes piece by piece.
pub proof fn lemma_encoded(a: Seq<char>, b: Seq<char>)
    ensures
        utf8::encode_utf8(a + b) == utf8::encode_utf8(a) + utf8::encode_utf8(b),
    decreases a.len(),
{
    if a.len() == 0 {
        assert(a + b =~= b);
        assert(utf8::encode_utf8(a) + utf8::encode_utf8(b) =~= utf8::encode_utf8(b));
    } else {
        lemma_encoded(a.drop_first(), b);
        assert((a + b).drop_first() =~= a.drop_first() + b);
        assert(utf8::encode_utf8(a + b) =~= utf8::encode_utf8(a) + utf8::encode_utf8(b));
    }
}

/// Pieces that are encoded lines are the encoded text of those lines.
pub proof fn lemma_pieces(n: nat, piece: spec_fn(int) -> Seq<u8>, l: Seq<Seq<char>>)
    requires
        l.len() == n,
        forall|i: int| 0 <= i < n ==> #[trigger] piece(i) == utf8::encode_utf8(l[i].push('\n')),
    ensures
        export::pieces(n, piece) == utf8::encode_utf8(ended(l)),
    decreases n,
{
    if n > 0 {
        let m = (n - 1) as nat;
        lemma_pieces(m, piece, l.drop_last());
        assert(piece(n - 1) == utf8::encode_utf8(l[n - 1].push('\n')));
        lemma_encoded(ended(l.drop_last()), l.last().push('\n'));
    }
}

/// Lines behind lines.
pub proof fn lemma_ended(a: Seq<Seq<char>>, b: Seq<Seq<char>>)
    ensures
        ended(a + b) == ended(a) + ended(b),
    decreases b.len(),
{
    if b.len() == 0 {
        assert(a + b =~= a);
        assert(ended(a) + ended(b) =~= ended(a));
    } else {
        lemma_ended(a, b.drop_last());
        assert((a + b).drop_last() =~= a + b.drop_last());
        assert(ended(a + b) =~= ended(a) + ended(b));
    }
}

/// Numbers stand on one line.
pub proof fn lemma_decimal(n: nat)
    ensures
        text::unbroken(text::decimal(n)),
    decreases n,
{
    let t = text::decimal(n);
    if n >= 10 {
        lemma_decimal(n / 10);
        assert forall|i: int| 0 <= i < t.len() implies t[i] != '\n' by {
            if i < t.len() - 1 {
                assert(text::decimal(n / 10).contains(t[i]));
            }
        }
    }
}

/// Two pieces of one line make one line.
pub proof fn lemma_unbroken(a: Seq<char>, b: Seq<char>)
    requires
        text::unbroken(a),
        text::unbroken(b),
    ensures
        text::unbroken(a + b),
{
    assert forall|i: int| 0 <= i < (a + b).len() implies (a + b)[i] != '\n' by {
        if i < a.len() {
            assert(a.contains(a[i]));
        } else {
            assert(b.contains(b[i - a.len()]));
        }
    }
}

} // verus!
