use vstd::prelude::*;
use vstd::string::StringSliceAdditionalSpecFns;

verus! {

/// Whether `c` is one of the two parenthesis characters.
pub open spec fn is_paren(c: char) -> bool {
    c == '(' || c == ')'
}

/// How a character changes the nesting depth: `(` opens, `)` closes.
pub open spec fn paren_step(c: char) -> int {
    if c == '(' {
        1
    } else if c == ')' {
        -1
    } else {
        0
    }
}

/// The nesting depth after reading `s`: opened minus closed parentheses.
pub open spec fn nesting(s: Seq<char>) -> int
    decreases s.len(),
{
    if s.len() == 0 {
        0
    } else {
        nesting(s.drop_last()) + paren_step(s.last())
    }
}

/// Every character of `s` is a parenthesis.
pub open spec fn all_parens(s: Seq<char>) -> bool {
    forall|i: int| 0 <= i < s.len() ==> is_paren(#[trigger] s[i])
}

/// No prefix of `s` closes more parentheses than it opened.
pub open spec fn never_below_zero(s: Seq<char>) -> bool {
    forall|k: int| 0 <= k <= s.len() ==> nesting(#[trigger] s.take(k)) >= 0
}

/// `s` is a well-formed parenthesis sequence (the empty one included).
pub open spec fn is_balanced(s: Seq<char>) -> bool {
    &&& all_parens(s)
    &&& never_below_zero(s)
    &&& nesting(s) == 0
}

/// The bytes of a string read one character per byte.
pub open spec fn byte_chars(b: Seq<u8>) -> Seq<char> {
    b.map_values(|x: u8| x as char)
}

/// What `is_valid` accepts: a non-empty well-formed parenthesis sequence.
pub open spec fn is_valid_bytes(b: Seq<u8>) -> bool {
    b.len() > 0 && is_balanced(byte_chars(b))
}

/// Reading `s` from the left meets a character other than a parenthesis before
/// the depth ever drops below zero.
pub open spec fn reaches_stray(s: Seq<char>) -> bool {
    exists|k: int|
        0 <= k < s.len() && !is_paren(#[trigger] s[k]) && all_parens(s.take(k)) && never_below_zero(
            s.take(k),
        )
}

/// The inputs on which `is_valid` returns instead of stopping the program:
/// it scans only non-empty strings of even length, and stops at the first byte
/// that is not a parenthesis.
pub open spec fn is_valid_returns(b: Seq<u8>) -> bool {
    &&& b.len() <= isize::MAX
    &&& !(b.len() > 0 && b.len() % 2 == 0 && reaches_stray(byte_chars(b)))
}

proof fn lemma_take_take(s: Seq<char>, i: int, j: int)
    requires
        0 <= j <= i <= s.len(),
    ensures
        s.take(i).take(j) == s.take(j),
{
    assert(s.take(i).take(j) =~= s.take(j));
}

/// A sequence made of parentheses has a depth of the same parity as its length.
pub proof fn lemma_depth_parity(s: Seq<char>)
    requires
        all_parens(s),
    ensures
        (nesting(s) - s.len()) % 2 == 0,
        -s.len() <= nesting(s) <= s.len(),
    decreases s.len(),
{
    if s.len() > 0 {
        assert(all_parens(s.drop_last())) by {
            assert forall|i: int| 0 <= i < s.drop_last().len() implies is_paren(
                #[trigger] s.drop_last()[i],
            ) by {
                assert(s.drop_last()[i] == s[i]);
            }
        }
        assert(is_paren(s[s.len() - 1]));
        lemma_depth_parity(s.drop_last());
    }
}

/// Checks that `seq` is a non-empty well-formed parenthesis sequence.
pub fn is_valid(seq: &str) -> (res: bool)
    requires
        is_valid_returns(seq.spec_bytes()),
    ensures
        res == is_valid_bytes(seq.spec_bytes()),
{
    let bytes = seq.as_bytes();
    let ghost cs = byte_chars(bytes@);
    if bytes.len() == 0 || bytes.len() % 2 != 0 {
        proof {
            if bytes.len() > 0 && is_balanced(cs) {
                lemma_depth_parity(cs);
            }
        }
        return false;
    }
    let mut depth: isize = 0;
    let mut i: usize = 0;
    assert(cs.take(0) =~= Seq::<char>::empty());
    while i < bytes.len()
        invariant
            bytes@ == seq.spec_bytes(),
            cs == byte_chars(bytes@),
            is_valid_returns(bytes@),
            bytes@.len() > 0,
            bytes@.len() % 2 == 0,
            0 <= i <= bytes@.len(),
            depth as int == nesting(cs.take(i as int)),
            0 <= depth <= i,
            all_parens(cs.take(i as int)),
            never_below_zero(cs.take(i as int)),
        decreases bytes@.len() - i,
    {
        let byte = bytes[i];
        let ghost prefix = cs.take(i as int);
        let ghost next = cs.take(i + 1);
        assert(next.drop_last() =~= prefix);
        assert(next.last() == cs[i as int]);
        assert(cs[i as int] == byte as char);
        if byte == 40u8 {
            depth += 1;
        } else if byte == 41u8 {
            depth -= 1;
        } else {
            proof {
                assert(!is_paren(cs[i as int]));
                assert(reaches_stray(cs));
            }
            return false;
        }
        proof {
            assert(all_parens(next)) by {
                assert forall|j: int| 0 <= j < next.len() implies is_paren(#[trigger] next[j]) by {
                    if j < i {
                        assert(next[j] == prefix[j]);
                    }
                }
            }
        }
        if depth < 0 {
            proof {
                assert(cs.take(i + 1) == next);
                assert(!never_below_zero(cs));
            }
            return false;
        }
        i += 1;
        proof {
            assert forall|k: int| 0 <= k <= next.len() implies nesting(#[trigger] next.take(k)) >= 0 by {
                if k <= i - 1 {
                    lemma_take_take(cs, i as int, k);
                    lemma_take_take(cs, i - 1, k);
                    assert(prefix.take(k) == cs.take(k));
                } else {
                    assert(next.take(k) =~= next);
                }
            }
        }
    }
    proof {
        assert(cs.take(i as int) =~= cs);
    }
    depth == 0
}

/// `nesting` adds up over a concatenation.
proof fn lemma_nesting_concat(a: Seq<char>, b: Seq<char>)
    ensures
        nesting(a + b) == nesting(a) + nesting(b),
    decreases b.len(),
{
    if b.len() == 0 {
        assert(a + b =~= a);
    } else {
        assert((a + b).drop_last() =~= a + b.drop_last());
        assert((a + b).last() == b.last());
        lemma_nesting_concat(a, b.drop_last());
    }
}

/// Two well-formed sequences one after the other make a well-formed sequence.
pub proof fn lemma_balanced_concat(a: Seq<char>, b: Seq<char>)
    requires
        is_balanced(a),
        is_balanced(b),
    ensures
        is_balanced(a + b),
{
    let w = a + b;
    lemma_nesting_concat(a, b);
    assert forall|i: int| 0 <= i < w.len() implies is_paren(#[trigger] w[i]) by {
        if i < a.len() {
            assert(w[i] == a[i]);
        } else {
            assert(w[i] == b[i - a.len()]);
        }
    }
    assert forall|k: int| 0 <= k <= w.len() implies nesting(#[trigger] w.take(k)) >= 0 by {
        if k <= a.len() {
            assert(w.take(k) =~= a.take(k));
        } else {
            assert(w.take(k) =~= a + b.take(k - a.len()));
            lemma_nesting_concat(a, b.take(k - a.len()));
            assert(a.take(a.len() as int) =~= a);
        }
    }
}

/// A well-formed sequence in a pair of parentheses is well-formed.
pub proof fn lemma_balanced_wrap(a: Seq<char>)
    requires
        is_balanced(a),
    ensures
        is_balanced(seq!['('] + a + seq![')']),
{
    let open = seq!['('];
    let w = open + a + seq![')'];
    lemma_nesting_concat(open + a, seq![')']);
    lemma_nesting_concat(open, a);
    lemma_push_nesting(Seq::<char>::empty(), '(');
    assert(Seq::<char>::empty().push('(') =~= open);
    lemma_push_nesting(Seq::<char>::empty(), ')');
    assert(Seq::<char>::empty().push(')') =~= seq![')']);
    assert forall|i: int| 0 <= i < w.len() implies is_paren(#[trigger] w[i]) by {
        if 1 <= i <= a.len() {
            assert(w[i] == a[i - 1]);
        }
    }
    assert forall|k: int| 0 <= k <= w.len() implies nesting(#[trigger] w.take(k)) >= 0 by {
        if k == 0 {
            assert(w.take(k) =~= Seq::<char>::empty());
        } else if k <= a.len() + 1 {
            assert(w.take(k) =~= open + a.take(k - 1));
            lemma_nesting_concat(open, a.take(k - 1));
        } else {
            assert(w.take(k) =~= w);
        }
    }
}

/// `(` and `)` exchanged; any other character kept.
pub open spec fn flip(c: char) -> char {
    if c == '(' {
        ')'
    } else if c == ')' {
        '('
    } else {
        c
    }
}

/// `s` read backwards with `(` and `)` exchanged.
pub open spec fn mirror(s: Seq<char>) -> Seq<char> {
    Seq::new(s.len(), |i: int| flip(s[s.len() - 1 - i]))
}

/// Mirroring a sequence of parentheses negates its nesting.
proof fn lemma_mirror_nesting(t: Seq<char>)
    requires
        all_parens(t),
    ensures
        nesting(mirror(t)) == -nesting(t),
    decreases t.len(),
{
    if t.len() > 0 {
        let d = t.drop_last();
        assert(all_parens(d)) by {
            assert forall|i: int| 0 <= i < d.len() implies is_paren(#[trigger] d[i]) by {
                assert(d[i] == t[i]);
            }
        }
        lemma_mirror_nesting(d);
        assert(is_paren(t[t.len() - 1]));
        let head = seq![flip(t.last())];
        assert(mirror(t) =~= head + mirror(d));
        lemma_nesting_concat(head, mirror(d));
        lemma_push_nesting(Seq::<char>::empty(), flip(t.last()));
        assert(Seq::<char>::empty().push(flip(t.last())) =~= head);
    }
}

/// One direction of `lemma_balanced_mirror`.
proof fn lemma_mirror_keeps_balance(s: Seq<char>)
    requires
        is_balanced(s),
    ensures
        is_balanced(mirror(s)),
{
    let m = mirror(s);
    let n = s.len() as int;
    assert forall|i: int| 0 <= i < m.len() implies is_paren(#[trigger] m[i]) by {
        assert(is_paren(s[n - 1 - i]));
    }
    lemma_mirror_nesting(s);
    assert forall|k: int| 0 <= k <= m.len() implies nesting(#[trigger] m.take(k)) >= 0 by {
        let tail = s.skip(n - k);
        assert(all_parens(tail)) by {
            assert forall|i: int| 0 <= i < tail.len() implies is_paren(#[trigger] tail[i]) by {
                assert(tail[i] == s[n - k + i]);
            }
        }
        assert(m.take(k) =~= mirror(tail));
        lemma_mirror_nesting(tail);
        assert(s =~= s.take(n - k) + tail);
        lemma_nesting_concat(s.take(n - k), tail);
    }
}

/// Reading a sequence of parentheses backwards with `(` and `)` exchanged
/// keeps it well-formed, and keeps it ill-formed.
pub proof fn lemma_balanced_mirror(s: Seq<char>)
    requires
        all_parens(s),
    ensures
        is_balanced(s) <==> is_balanced(mirror(s)),
{
    if is_balanced(s) {
        lemma_mirror_keeps_balance(s);
    }
    if is_balanced(mirror(s)) {
        lemma_mirror_keeps_balance(mirror(s));
        assert(mirror(mirror(s)) =~= s) by {
            assert forall|i: int| 0 <= i < s.len() implies mirror(mirror(s))[i] == s[i] by {
                assert(is_paren(s[i]));
            }
        }
    }
}

/// The UTF-8 encoding of a string of parentheses is that string, byte by
/// byte, so `is_valid` accepts it exactly when it is non-empty and well-formed.
pub proof fn lemma_is_valid_parens(s: Seq<char>)
    requires
        all_parens(s),
    ensures
        byte_chars(vstd::utf8::encode_utf8(s)) == s,
        is_valid_bytes(vstd::utf8::encode_utf8(s)) == (s.len() > 0 && is_balanced(s)),
{
    assert(vstd::utf8::is_ascii_chars(s)) by {
        assert forall|i: int| 0 <= i < s.len() implies '\0' <= #[trigger] s[i] <= '\u{7f}' by {
            assert(is_paren(s[i]));
        }
    }
    vstd::utf8::is_ascii_chars_encode_utf8(s);
    let b = vstd::utf8::encode_utf8(s);
    assert(byte_chars(b) =~= s) by {
        assert forall|i: int| 0 <= i < s.len() implies #[trigger] byte_chars(b)[i] == s[i] by {
            assert(s[i] as u8 == b[i]);
            assert(is_paren(s[i]));
        }
    }
}

/// Of strings of parentheses, `is_valid` accepts two accepted strings one
/// after the other and an accepted string in a pair of parentheses, and it
/// accepts a string exactly when it accepts its mirror image (the string read
/// backwards with `(` and `)` exchanged).
pub proof fn lemma_is_valid_closure(a: Seq<char>, b: Seq<char>, s: Seq<char>)
    requires
        all_parens(a),
        all_parens(b),
        all_parens(s),
    ensures
        is_valid_bytes(vstd::utf8::encode_utf8(a)) && is_valid_bytes(vstd::utf8::encode_utf8(b))
            ==> is_valid_bytes(vstd::utf8::encode_utf8(a + b)),
        is_valid_bytes(vstd::utf8::encode_utf8(a)) ==> is_valid_bytes(
            vstd::utf8::encode_utf8(seq!['('] + a + seq![')']),
        ),
        is_valid_bytes(vstd::utf8::encode_utf8(s)) == is_valid_bytes(
            vstd::utf8::encode_utf8(mirror(s)),
        ),
{
    lemma_is_valid_parens(a);
    lemma_is_valid_parens(b);
    lemma_is_valid_parens(s);
    let ab = a + b;
    assert(all_parens(ab)) by {
        assert forall|i: int| 0 <= i < ab.len() implies is_paren(#[trigger] ab[i]) by {
            if i < a.len() {
                assert(ab[i] == a[i]);
            } else {
                assert(ab[i] == b[i - a.len()]);
            }
        }
    }
    lemma_is_valid_parens(ab);
    if is_valid_bytes(vstd::utf8::encode_utf8(a)) && is_valid_bytes(vstd::utf8::encode_utf8(b)) {
        lemma_balanced_concat(a, b);
    }
    let w = seq!['('] + a + seq![')'];
    assert(all_parens(w)) by {
        assert forall|i: int| 0 <= i < w.len() implies is_paren(#[trigger] w[i]) by {
            if 1 <= i <= a.len() {
                assert(w[i] == a[i - 1]);
            }
        }
    }
    lemma_is_valid_parens(w);
    if is_valid_bytes(vstd::utf8::encode_utf8(a)) {
        lemma_balanced_wrap(a);
    }
    let m = mirror(s);
    assert(all_parens(m)) by {
        assert forall|i: int| 0 <= i < m.len() implies is_paren(#[trigger] m[i]) by {
            assert(is_paren(s[s.len() - 1 - i]));
        }
    }
    lemma_is_valid_parens(m);
    lemma_balanced_mirror(s);
}

/// The binomial coefficient "n choose k", by Pascal's rule.
pub open spec fn binomial(n: nat, k: nat) -> nat
    decreases n,
{
    if k == 0 {
        1
    } else if n == 0 {
        0
    } else {
        binomial((n - 1) as nat, (k - 1) as nat) + binomial((n - 1) as nat, k)
    }
}

/// The `n`-th Catalan number, `C(2n, n) / (n + 1)`.
pub open spec fn catalan(n: nat) -> nat {
    binomial(2 * n, n) / (n + 1)
}

/// `nth_catalan_number(n)` computes `catalan(i) = catalan(i - 1) * 2 * (2i - 1) / (i + 1)`
/// for `i` up to `n`; this holds when none of those products leaves `usize`.
pub open spec fn catalan_fits(n: nat) -> bool {
    forall|i: nat| 1 <= i <= n ==> #[trigger] catalan((i - 1) as nat) * 2 * (2 * i - 1) <= usize::MAX
}

/// `k * C(n, k) == n * C(n - 1, k - 1)`.
proof fn lemma_absorption(n: nat, k: nat)
    requires
        n >= 1,
        k >= 1,
    ensures
        k * binomial(n, k) == n * binomial((n - 1) as nat, (k - 1) as nat),
    decreases n,
{
    let a = binomial((n - 1) as nat, (k - 1) as nat);
    let b = binomial((n - 1) as nat, k);
    assert(binomial(n, k) == a + b);
    if n == 1 {
        if k == 1 {
            assert(binomial(0, 1) == 0);
        } else {
            assert(binomial(0, (k - 1) as nat) == 0);
            assert(binomial(0, k) == 0);
        }
        assert(k * binomial(n, k) == k * (a + b));
        assert(k * (a + b) == k * a + k * b) by (nonlinear_arith);
    } else {
        // k * C(n, k) = (k - 1) * a + a + k * b
        if k == 1 {
            assert(a == 1);
            let n1 = (n - 1) as nat;
            lemma_absorption(n1, 1);
            assert(binomial((n1 - 1) as nat, 0) == 1);
            assert(1 * b == n1 * 1);
            assert(k * binomial(n, k) == n * a) by (nonlinear_arith)
                requires
                    k == 1,
                    a == 1,
                    1 * b == n1 * 1,
                    n1 == n - 1,
                    binomial(n, k) == a + b,
            ;
        } else {
            lemma_absorption((n - 1) as nat, (k - 1) as nat);
            lemma_absorption((n - 1) as nat, k);
            let c = binomial((n - 2) as nat, (k - 2) as nat);
            let d = binomial((n - 2) as nat, (k - 1) as nat);
            assert(a == c + d);
            assert(k * binomial(n, k) == n * a) by (nonlinear_arith)
                requires
                    binomial(n, k) == a + b,
                    (k - 1) * a == (n - 1) * c,
                    k * b == (n - 1) * d,
                    a == c + d,
                    k >= 2,
            ;
        }
    }
}

/// `(m - k) * C(m, k) == m * C(m - 1, k)`.
proof fn lemma_absorption_complement(m: nat, k: nat)
    requires
        m >= 1,
        k <= m,
    ensures
        (m - k) * binomial(m, k) == m * binomial((m - 1) as nat, k),
{
    if k == 0 {
        assert(binomial(m, 0) == 1);
        assert(binomial((m - 1) as nat, 0) == 1);
    } else {
        lemma_absorption(m, k);
        let a = binomial((m - 1) as nat, (k - 1) as nat);
        let b = binomial((m - 1) as nat, k);
        assert(binomial(m, k) == a + b);
        assert((m - k) * binomial(m, k) == m * b) by (nonlinear_arith)
            requires
                binomial(m, k) == a + b,
                k * binomial(m, k) == m * a,
                k <= m,
        ;
    }
}

/// `C(n, k) >= 1` when `k <= n`.
proof fn lemma_binomial_positive(n: nat, k: nat)
    requires
        k <= n,
    ensures
        binomial(n, k) >= 1,
    decreases n,
{
    if k > 0 {
        lemma_binomial_positive((n - 1) as nat, (k - 1) as nat);
    }
}

/// `(n + 1) * catalan(n) == C(2n, n)`, and `catalan(n) >= 1`.
pub proof fn lemma_catalan_exact(n: nat)
    ensures
        (n + 1) * catalan(n) == binomial(2 * n, n),
        catalan(n) >= 1,
{
    let m = 2 * n;
    lemma_binomial_positive(m, n);
    if n == 0 {
        assert(binomial(0, 0) == 1);
        assert(catalan(0) == 1nat / 1nat);
        assert(1nat / 1nat == 1) by (nonlinear_arith);
    } else {
        // (n + 1) * C(2n, n + 1) == n * C(2n, n)
        lemma_absorption(m, n + 1);
        lemma_absorption_complement(m, n);
        let b = binomial(m, n);
        let c = binomial(m, n + 1);
        assert((n + 1) * c == n * b);
        assert(b == (n + 1) * (b - c)) by (nonlinear_arith)
            requires
                (n + 1) * c == n * b,
        ;
        assert(b - c >= 0) by (nonlinear_arith)
            requires
                (n + 1) * c == n * b,
                b >= 1,
                n >= 1,
                c >= 0,
        ;
        let q = (b - c) as nat;
        assert(b / (n + 1) == q) by (nonlinear_arith)
            requires
                b == (n + 1) * q,
        ;
        assert(q >= 1) by (nonlinear_arith)
            requires
                b == (n + 1) * q,
                b >= 1,
        ;
    }
}

/// `(n + 1) * catalan(n) == 2 * (2n - 1) * catalan(n - 1)` for `n >= 1`.
pub proof fn lemma_catalan_step(n: nat)
    requires
        n >= 1,
    ensures
        (n + 1) * catalan(n) == catalan((n - 1) as nat) * 2 * (2 * n - 1),
{
    let m = 2 * n;
    lemma_catalan_exact(n);
    lemma_catalan_exact((n - 1) as nat);
    // n * C(2n, n) == 2n * C(2n - 1, n - 1)
    lemma_absorption(m, n);
    // n * C(2n - 1, n - 1) == (2n - 1) * C(2n - 2, n - 1)
    lemma_absorption_complement((m - 1) as nat, (n - 1) as nat);
    assert((m - 1 - (n - 1)) == n);
    assert(((m - 1) - 1) as nat == 2 * ((n - 1) as nat));
    let bn = binomial(m, n);
    let mid = binomial((m - 1) as nat, (n - 1) as nat);
    let bp = binomial(2 * ((n - 1) as nat), (n - 1) as nat);
    let cn = catalan(n);
    let cp = catalan((n - 1) as nat);
    assert((n + 1) * cn == cp * 2 * (2 * n - 1)) by (nonlinear_arith)
        requires
            n >= 1,
            m == 2 * n,
            n * bn == m * mid,
            n * mid == (2 * n - 1) * bp,
            (n + 1) * cn == bn,
            n * cp == bp,
    ;
}

/// The `n`-th Catalan number (1, 1, 2, 5, 14, ...).
pub fn nth_catalan_number(n: usize) -> (res: usize)
    requires
        catalan_fits(n as nat),
    ensures
        res == catalan(n as nat),
{
    proof {
        if n > 0 {
            lemma_catalan_exact((n - 1) as nat);
            assert(catalan(((n as nat) - 1) as nat) * 2 * (2 * (n as nat) - 1) <= usize::MAX);
            assert(2 * (2 * (n as nat) - 1) <= usize::MAX) by (nonlinear_arith)
                requires
                    catalan(((n as nat) - 1) as nat) * 2 * (2 * (n as nat) - 1) <= usize::MAX,
                    catalan(((n as nat) - 1) as nat) >= 1,
                    n >= 1,
            ;
        }
    }
    let mut table: Vec<usize> = Vec::with_capacity(n + 1);
    table.push(1);
    proof {
        lemma_catalan_exact(0);
        assert(binomial(0, 0) == 1);
        assert(catalan(0) == 1);
    }
    let mut i: usize = 1;
    while i <= n
        invariant
            1 <= i <= n + 1,
            n < usize::MAX,
            catalan_fits(n as nat),
            table@.len() == i,
            forall|j: int| 0 <= j < i ==> table@[j] == catalan(j as nat),
        decreases n + 1 - i,
    {
        let prev = table[i - 1];
        proof {
            lemma_catalan_step(i as nat);
            lemma_catalan_exact((i - 1) as nat);
            assert(catalan(((i as nat) - 1) as nat) * 2 * (2 * (i as nat) - 1) <= usize::MAX);
            assert(prev * 2 <= prev * 2 * (2 * (i as nat) - 1)) by (nonlinear_arith)
                requires
                    i >= 1,
            ;
            assert(2 * (i as nat) <= prev * 2 * (2 * (i as nat) - 1)) by (nonlinear_arith)
                requires
                    i >= 1,
                    prev >= 1,
            ;
        }
        let product = prev * 2 * (2 * i - 1);
        let next = product / (i + 1);
        proof {
            let c = catalan(i as nat);
            assert(product == (i + 1) * c);
            assert(next == c) by (nonlinear_arith)
                requires
                    product == (i + 1) * c,
                    next == product as int / (i as int + 1),
                    i >= 1,
            ;
        }
        table.push(next);
        i += 1;
    }
    table[n]
}

/// `C(n, n) == 1`.
proof fn lemma_binomial_full(n: nat)
    ensures
        binomial(n, n) == 1,
    decreases n,
{
    if n > 0 {
        lemma_binomial_full((n - 1) as nat);
        lemma_binomial_zero((n - 1) as nat, n);
    }
}

/// `C(n, k) == 0` when `k > n`.
proof fn lemma_binomial_zero(n: nat, k: nat)
    requires
        k > n,
    ensures
        binomial(n, k) == 0,
    decreases n,
{
    if n > 0 {
        lemma_binomial_zero((n - 1) as nat, (k - 1) as nat);
        lemma_binomial_zero((n - 1) as nat, k);
    }
}

/// `C(n, k) == C(n, n - k)`.
proof fn lemma_binomial_symmetry(n: nat, k: nat)
    requires
        k <= n,
    ensures
        binomial(n, k) == binomial(n, (n - k) as nat),
    decreases n,
{
    if n > 0 {
        if k == 0 {
            lemma_binomial_full(n);
        } else if k == n {
            lemma_binomial_full(n);
        } else {
            lemma_binomial_symmetry((n - 1) as nat, (k - 1) as nat);
            lemma_binomial_symmetry((n - 1) as nat, k);
            assert(binomial(n, (n - k) as nat) == binomial((n - 1) as nat, (n - k - 1) as nat)
                + binomial((n - 1) as nat, (n - k) as nat));
        }
    }
}

/// The number of ways to finish a parenthesis sequence with `a` opening and
/// `b` closing parentheses left to place, never closing more than is open,
/// when `b - a` are open now: `C(a + b, a) - C(a + b, a - 1)`.
pub open spec fn ballot(a: nat, b: nat) -> int {
    binomial(a + b, a) - if a == 0 {
        0
    } else {
        binomial(a + b, (a - 1) as nat) as int
    }
}

/// How `ballot` splits on the next character: only `)` when no `(` is left,
/// only `(` when nothing is open, either one otherwise.
proof fn lemma_ballot_step(a: nat, b: nat)
    requires
        a <= b,
        b > 0,
    ensures
        a == 0 ==> ballot(a, b) == 1 && ballot(a, (b - 1) as nat) == 1,
        a > 0 && b > a ==> ballot(a, b) == ballot((a - 1) as nat, b) + ballot(a, (b - 1) as nat),
        a > 0 && b == a ==> ballot(a, b) == ballot((a - 1) as nat, b),
{
    let m = (a + b - 1) as nat;
    if a == 0 {
        assert(binomial(b, 0) == 1);
        assert(binomial((b - 1) as nat, 0) == 1);
    } else {
        assert(binomial(a + b, a) == binomial(m, (a - 1) as nat) + binomial(m, a));
        if a >= 2 {
            assert(binomial(a + b, (a - 1) as nat) == binomial(m, (a - 2) as nat) + binomial(
                m,
                (a - 1) as nat,
            ));
        } else {
            assert(binomial(a + b, 0) == 1);
            assert(binomial(m, 0) == 1);
        }
        if b == a {
            lemma_binomial_symmetry(m, a);
            assert(m - a == a - 1);
        }
    }
}

/// `ballot(n, n)` counts the well-formed sequences of `n` pairs: it is `catalan(n)`.
proof fn lemma_ballot_catalan(n: nat)
    ensures
        ballot(n, n) == catalan(n),
{
    lemma_catalan_exact(n);
    if n == 0 {
        assert(binomial(0, 0) == 1);
    } else {
        let m = 2 * n;
        lemma_absorption(m, n + 1);
        lemma_absorption_complement(m, n);
        let b = binomial(m, n);
        let c = binomial(m, n + 1);
        assert((n + 1) * c == n * b);
        assert((n + 1) * catalan(n) == b);
        assert(catalan(n) == b - c) by (nonlinear_arith)
            requires
                (n + 1) * c == n * b,
                (n + 1) * catalan(n) == b,
        ;
        lemma_binomial_symmetry(m, n + 1);
        assert((m - (n + 1)) as nat == (n - 1) as nat);
    }
}

/// `w` starts with `p`.
pub open spec fn has_prefix(w: Seq<char>, p: Seq<char>) -> bool {
    p.len() <= w.len() && w.take(p.len() as int) == p
}

/// A well-formed parenthesis sequence of `n` pairs.
pub open spec fn is_word(w: Seq<char>, n: nat) -> bool {
    w.len() == 2 * n && is_balanced(w)
}

/// For sequences of one length: `a` comes before `b` in dictionary order, that
/// is at the first position where they differ `a` holds the smaller character
/// (so `(` comes before `)`).
pub open spec fn lex_less(a: Seq<char>, b: Seq<char>) -> bool {
    exists|k: int|
        0 <= k < a.len() && k < b.len() && a.take(k) == b.take(k) && (#[trigger] a[k] as u32) < (
        #[trigger] b[k] as u32)
}

/// Each element of `ws` comes before every later one in dictionary order (so no
/// element occurs twice).
pub open spec fn strictly_increasing(ws: Seq<Seq<char>>) -> bool {
    forall|i: int, j: int| 0 <= i < j < ws.len() ==> #[trigger] lex_less(ws[i], ws[j])
}

/// The contents of a list of strings.
pub open spec fn words(v: Seq<String>) -> Seq<Seq<char>> {
    v.map_values(|s: String| s@)
}

/// `ws` lists, in dictionary order, exactly the well-formed sequences of `n`
/// pairs that start with `p`.
pub open spec fn lists_completions(ws: Seq<Seq<char>>, p: Seq<char>, n: nat) -> bool {
    &&& forall|i: int| 0 <= i < ws.len() ==> is_word(#[trigger] ws[i], n) && has_prefix(ws[i], p)
    &&& forall|w: Seq<char>| #[trigger] is_word(w, n) && has_prefix(w, p) ==> ws.contains(w)
    &&& strictly_increasing(ws)
}

/// `p` is a prefix of some well-formed sequence: it holds `left` opening and
/// `right` closing parentheses and never closes more than it opened.
pub open spec fn is_open_prefix(p: Seq<char>, left: nat, right: nat) -> bool {
    &&& all_parens(p)
    &&& never_below_zero(p)
    &&& nesting(p) == left - right
    &&& p.len() == left + right
}

/// Whatever follows position `k` can lower the depth by at most one per character.
proof fn lemma_nesting_tail(w: Seq<char>, k: int)
    requires
        0 <= k <= w.len(),
    ensures
        nesting(w) >= nesting(w.take(k)) - (w.len() - k),
    decreases w.len() - k,
{
    if k < w.len() {
        let d = w.drop_last();
        assert(d.take(k) =~= w.take(k));
        lemma_nesting_tail(d, k);
    } else {
        assert(w.take(k) =~= w);
    }
}

proof fn lemma_push_nesting(p: Seq<char>, c: char)
    ensures
        nesting(p.push(c)) == nesting(p) + paren_step(c),
{
    assert(p.push(c).drop_last() =~= p);
}

/// Extending an open prefix by `(` while fewer than `n` are open, or by `)`
/// while some are unclosed, gives an open prefix.
proof fn lemma_extend_prefix(p: Seq<char>, left: nat, right: nat, c: char)
    requires
        is_open_prefix(p, left, right),
        (c == '(') || (c == ')' && left > right),
    ensures
        c == '(' ==> is_open_prefix(p.push(c), left + 1, right),
        c == ')' ==> is_open_prefix(p.push(c), left, (right + 1) as nat),
{
    let q = p.push(c);
    lemma_push_nesting(p, c);
    assert(all_parens(q)) by {
        assert forall|i: int| 0 <= i < q.len() implies is_paren(#[trigger] q[i]) by {
            if i < p.len() {
                assert(q[i] == p[i]);
            }
        }
    }
    assert(never_below_zero(q)) by {
        assert forall|k: int| 0 <= k <= q.len() implies nesting(#[trigger] q.take(k)) >= 0 by {
            if k <= p.len() {
                assert(q.take(k) =~= p.take(k));
            } else {
                assert(q.take(k) =~= q);
            }
        }
    }
}

/// In a well-formed sequence of `n` pairs that starts with the open prefix `p`,
/// the character after `p` is `(` only while fewer than `n` are open, and `)`
/// only while some are unclosed.
proof fn lemma_next_char(w: Seq<char>, n: nat, p: Seq<char>, left: nat, right: nat)
    requires
        is_word(w, n),
        has_prefix(w, p),
        is_open_prefix(p, left, right),
        p.len() < 2 * n,
    ensures
        w.take(p.len() as int + 1) == p.push(w[p.len() as int]),
        w[p.len() as int] == '(' ==> left < n,
        w[p.len() as int] == ')' ==> left > right,
        is_paren(w[p.len() as int]),
{
    let k = p.len() as int;
    let c = w[k];
    assert(w.take(k + 1) =~= p.push(c));
    assert(is_paren(w[k]));
    lemma_push_nesting(p, c);
    lemma_nesting_tail(w, k + 1);
    assert(nesting(w.take(k + 1)) >= 0);
}

/// An open prefix with `n` opening and `n` closing parentheses is itself the
/// only well-formed sequence of `n` pairs that starts with it.
proof fn lemma_full_prefix(p: Seq<char>, n: nat)
    requires
        is_open_prefix(p, n, n),
    ensures
        is_word(p, n),
        forall|w: Seq<char>| #[trigger] is_word(w, n) && has_prefix(w, p) ==> w == p,
{
    assert forall|w: Seq<char>| #[trigger] is_word(w, n) && has_prefix(w, p) implies w == p by {
        assert(w.take(p.len() as int) =~= w);
    }
}

/// Joining the completions that continue `p` with `(` and those that continue
/// it with `)` lists the completions of `p`.
proof fn lemma_join_completions(
    a: Seq<Seq<char>>,
    b: Seq<Seq<char>>,
    p: Seq<char>,
    n: nat,
    left: nat,
    right: nat,
)
    requires
        is_open_prefix(p, left, right),
        p.len() < 2 * n,
        left <= n,
        left < n ==> lists_completions(a, p.push('('), n),
        !(left < n) ==> a.len() == 0,
        left > right ==> lists_completions(b, p.push(')'), n),
        !(left > right) ==> b.len() == 0,
    ensures
        lists_completions(a + b, p, n),
{
    let ab = a + b;
    let k = p.len() as int;
    assert forall|i: int| 0 <= i < ab.len() implies is_word(#[trigger] ab[i], n) && has_prefix(
        ab[i],
        p,
    ) by {
        let w = ab[i];
        if i < a.len() {
            assert(w == a[i]);
            assert(has_prefix(w, p.push('(')));
            assert(w.take(k) =~= w.take(k + 1).take(k));
            assert(p.push('(').take(k) =~= p);
        } else {
            assert(w == b[i - a.len()]);
            assert(has_prefix(w, p.push(')')));
            assert(w.take(k) =~= w.take(k + 1).take(k));
            assert(p.push(')').take(k) =~= p);
        }
    }
    assert forall|w: Seq<char>| #[trigger] is_word(w, n) && has_prefix(w, p) implies ab.contains(
        w,
    ) by {
        lemma_next_char(w, n, p, left, right);
        if w[k] == '(' {
            assert(has_prefix(w, p.push('(')));
            let j = choose|j: int| 0 <= j < a.len() && a[j] == w;
            assert(ab[j] == w);
        } else {
            assert(has_prefix(w, p.push(')')));
            let j = choose|j: int| 0 <= j < b.len() && b[j] == w;
            assert(ab[a.len() + j] == w);
        }
    }
    assert forall|i: int, j: int| 0 <= i < j < ab.len() implies #[trigger] lex_less(ab[i], ab[j]) by {
        if j < a.len() {
            assert(ab[i] == a[i] && ab[j] == a[j]);
            assert(lex_less(a[i], a[j]));
        } else if i >= a.len() {
            assert(ab[i] == b[i - a.len()] && ab[j] == b[j - a.len()]);
            assert(lex_less(b[i - a.len()], b[j - a.len()]));
        } else {
            let x = a[i];
            let y = b[j - a.len()];
            assert(ab[i] == x && ab[j] == y);
            assert(has_prefix(x, p.push('(')));
            assert(has_prefix(y, p.push(')')));
            assert(x.take(k) =~= x.take(k + 1).take(k));
            assert(y.take(k) =~= y.take(k + 1).take(k));
            assert(p.push('(').take(k) =~= p);
            assert(p.push(')').take(k) =~= p);
            assert(x[k] == x.take(k + 1)[k]);
            assert(y[k] == y.take(k + 1)[k]);
            assert(x[k] == '(' && y[k] == ')');
            assert(('(' as u32) < (')' as u32));
            assert(lex_less(x, y));
        }
    }
}

/// Appends to `result`, in dictionary order, every well-formed sequence of `n`
/// pairs that starts with `string`, which holds `left_count` opening and
/// `right_count` closing parentheses; `string` is handed back unchanged.
fn backtrack(
    n: usize,
    left_count: usize,
    right_count: usize,
    string: &mut String,
    result: &mut Vec<String>,
)
    requires
        right_count <= left_count <= n,
        4 * (2 * n + 1) <= isize::MAX,
        is_open_prefix(old(string)@, left_count as nat, right_count as nat),
    ensures
        final(string)@ == old(string)@,
        final(result)@.len() >= old(result)@.len(),
        final(result)@.take(old(result)@.len() as int) == old(result)@,
        lists_completions(
            words(final(result)@.skip(old(result)@.len() as int)),
            old(string)@,
            n as nat,
        ),
        final(result)@.len() == old(result)@.len() + ballot(
            (n - left_count) as nat,
            (n - right_count) as nat,
        ),
    decreases 2 * n - left_count - right_count,
{
    let ghost p = string@;
    let ghost r0 = result@;
    if left_count == n && right_count == n {
        result.push(string.clone());
        proof {
            lemma_full_prefix(p, n as nat);
            let added = words(result@.skip(r0.len() as int));
            assert(result@.take(r0.len() as int) =~= r0);
            assert(added =~= seq![p]);
            assert forall|w: Seq<char>| #[trigger] is_word(w, n as nat) && has_prefix(
                w,
                p,
            ) implies added.contains(w) by {
                assert(added[0] == w);
            }
            assert(has_prefix(p, p)) by {
                assert(p.take(p.len() as int) =~= p);
            }
            assert(binomial(0, 0) == 1);
        }
        return;
    }
    if left_count < n {
        proof {
            lemma_extend_prefix(p, left_count as nat, right_count as nat, '(');
        }
        crate::text::string_push(string, '(');
        backtrack(n, left_count + 1, right_count, string, result);
        crate::text::string_pop(string);
        proof {
            assert(string@ =~= p);
        }
    }
    let ghost r1 = result@;
    if left_count > right_count {
        proof {
            lemma_extend_prefix(p, left_count as nat, right_count as nat, ')');
        }
        crate::text::string_push(string, ')');
        backtrack(n, left_count, right_count + 1, string, result);
        crate::text::string_pop(string);
        proof {
            assert(string@ =~= p);
        }
    }
    proof {
        let r2 = result@;
        let a = words(r1.skip(r0.len() as int));
        let b = words(r2.skip(r1.len() as int));
        assert(r1.take(r0.len() as int) =~= r0);
        assert(r2.take(r1.len() as int) =~= r1);
        assert(r2.take(r0.len() as int) =~= r0) by {
            assert(r2.take(r0.len() as int) =~= r2.take(r1.len() as int).take(r0.len() as int));
        }
        assert(words(r2.skip(r0.len() as int)) =~= a + b) by {
            assert(r2.skip(r0.len() as int) =~= r1.skip(r0.len() as int) + r2.skip(
                r1.len() as int,
            )) by {
                assert(r2 =~= r1 + r2.skip(r1.len() as int));
            }
        }
        if !(left_count < n) {
            assert(r1 =~= r0);
        }
        if !(left_count > right_count) {
            assert(r2 =~= r1);
        }
        lemma_join_completions(a, b, p, n as nat, left_count as nat, right_count as nat);
        lemma_ballot_step((n - left_count) as nat, (n - right_count) as nat);
    }
}

/// `catalan(k) >= k`.
proof fn lemma_catalan_at_least(k: nat)
    ensures
        catalan(k) >= k,
    decreases k,
{
    lemma_catalan_exact(k);
    if k >= 1 {
        lemma_catalan_step(k);
        lemma_catalan_at_least((k - 1) as nat);
        let c = catalan(k);
        let d = catalan((k - 1) as nat);
        if k == 1 {
            lemma_catalan_exact(0);
            assert(binomial(0, 0) == 1);
        } else {
            assert(c >= k) by (nonlinear_arith)
                requires
                    (k + 1) * c == d * 2 * (2 * k - 1),
                    d >= k - 1,
                    k >= 2,
            ;
        }
    }
}

/// The sizes that `catalan_fits` admits are small: a string of `2n` characters
/// is far from the limits of the platform.
proof fn lemma_catalan_fits_small(n: nat)
    requires
        catalan_fits(n),
    ensures
        4 * (2 * n + 1) <= isize::MAX,
        n < 0x1_0000_0000,
{
    assert(usize::MAX == 2 * isize::MAX + 1);
    if n >= 0x1_0000_0000 {
        lemma_catalan_at_least((n - 1) as nat);
        let d = catalan((n - 1) as nat);
        assert(d * 2 * (2 * n - 1) <= usize::MAX);
        assert(d * 2 * (2 * n - 1) > 0xffff_ffff_ffff_ffff) by (nonlinear_arith)
            requires
                d >= n - 1,
                n >= 0x1_0000_0000,
        ;
    }
    assert(isize::MAX >= 0x7fff_ffff);
    if n >= 6 {
        lemma_catalan_at_least((n - 1) as nat);
        let d = catalan((n - 1) as nat);
        assert(d * 2 * (2 * n - 1) <= usize::MAX);
        assert(2 * (4 * (2 * n + 1)) + 1 <= d * 2 * (2 * n - 1)) by (nonlinear_arith)
            requires
                d >= n - 1,
                n >= 6,
        ;
    }
}

/// Every well-formed sequence of `n` pairs of parentheses, in dictionary order
/// (`(` before `)`).
pub fn generate_valid_paren_sequence(n: usize) -> (res: Vec<String>)
    requires
        catalan_fits(n as nat),
    ensures
        forall|i: int| 0 <= i < res.len() ==> is_word(#[trigger] res[i]@, n as nat),
        forall|w: Seq<char>| #[trigger] is_word(w, n as nat) ==> words(res@).contains(w),
        strictly_increasing(words(res@)),
        res.len() == catalan(n as nat),
{
    proof {
        lemma_catalan_fits_small(n as nat);
        lemma_ballot_catalan(n as nat);
    }
    let mut result = Vec::with_capacity(nth_catalan_number(n));
    {
        let mut string = crate::text::string_with_capacity(n * 2);
        proof {
            assert(string@.take(0) =~= string@);
        }
        backtrack(n, 0, 0, &mut string, &mut result);
    }
    proof {
        let ws = words(result@);
        assert(result@.skip(0) =~= result@);
        assert forall|i: int| 0 <= i < result.len() implies is_word(#[trigger] result[i]@, n as nat) by {
            assert(ws[i] == result[i]@);
        }
        assert forall|w: Seq<char>| #[trigger] is_word(w, n as nat) implies ws.contains(w) by {
            assert(has_prefix(w, Seq::<char>::empty())) by {
                assert(w.take(0) =~= Seq::<char>::empty());
            }
        }
    }
    result
}

/// `macroquad::rand::gen_range::<usize>(0, len)`: a pseudo-random index
/// below `len`. Which index comes back depends on the generator's hidden state
/// and is not stated. quad-rand computes `(rand() / 2^32 * len) as usize`,
/// which stays below `len` while `len` is exact as an `f64`, as `requires` asks.
#[verifier::external_body]
fn random_index(len: usize) -> (r: usize)
    requires
        1 <= len <= 0x20_0000_0000_0000,
    ensures
        r < len,
{
    macroquad::rand::gen_range(0, len)
}

/// `v` is `w` with the characters at two positions that differ swapped.
pub open spec fn is_swap_of(v: Seq<char>, w: Seq<char>) -> bool {
    exists|a: int, b: int|
        0 <= a < w.len() && 0 <= b < w.len() && w[a] != w[b] && v == w.update(a, w[b]).update(
            b,
            w[a],
        )
}

/// `s` holds two different characters.
pub open spec fn has_two_kinds(s: Seq<char>) -> bool {
    exists|a: int, b: int| 0 <= a < s.len() && 0 <= b < s.len() && s[a] != s[b]
}

/// `macroquad::rand::rand`: the generator's next 32-bit output. Any value can
/// come back.
#[verifier::external_body]
fn random_u32() -> (r: u32) {
    macroquad::rand::rand()
}

/// The outputs of `rand` below which the lock breaks a word. The lock draws
/// `gen_range::<f32>(0.0, 1.0)` and breaks the word when the draw is below one
/// half; that draw is `rand() / 2^32` rounded to `f32`, which rounds to `0.5`
/// from `2^31 - 64` on (with ties to even) and stays below `0.5` under it.
pub const BREAK_BELOW: u32 = 2147483584;

/// Whether the lock keeps a word as it is, given the generator's draw for
/// it: draws from `BREAK_BELOW` on keep it, and so does a lock of no pairs,
/// whose one word is empty.
pub fn keeps_word(draw: u32, n_pairs: usize) -> (keep: bool)
    ensures
        keep == (draw >= BREAK_BELOW || n_pairs == 0),
{
    draw >= BREAK_BELOW || n_pairs == 0
}

/// `w` with the characters at positions `a` and `b` exchanged.
pub open spec fn swapped(w: Seq<char>, a: int, b: int) -> Seq<char> {
    w.update(a, w[b]).update(b, w[a])
}

/// Two positions of `w` that hold different characters.
pub open spec fn swap_fits(w: Seq<char>, a: int, b: int) -> bool {
    0 <= a < w.len() && 0 <= b < w.len() && w[a] != w[b]
}

/// The bytes of an ASCII string read as its characters.
proof fn lemma_ascii_bytes(w: Seq<char>)
    requires
        vstd::utf8::is_ascii_chars(w),
    ensures
        vstd::utf8::encode_utf8(w).len() == w.len(),
        forall|i: int| 0 <= i < w.len() ==> (#[trigger] vstd::utf8::encode_utf8(w)[i]) as char == w[i],
{
    vstd::utf8::is_ascii_chars_encode_utf8(w);
    assert forall|i: int| 0 <= i < w.len() implies (#[trigger] vstd::utf8::encode_utf8(w)[i]) as char
        == w[i] by {
        assert(w[i] as u8 == vstd::utf8::encode_utf8(w)[i]);
        assert('\0' <= w[i] <= '\u{7f}');
    }
}

/// Whether a drawn partner `n` is accepted for the first position `from_idx`
/// of `seq`: the two bytes differ.
pub fn partner_accepted(seq: &String, from_idx: usize, n: usize) -> (ok: bool)
    requires
        from_idx < vstd::utf8::encode_utf8(seq@).len(),
        n < vstd::utf8::encode_utf8(seq@).len(),
    ensures
        ok == (vstd::utf8::encode_utf8(seq@)[n as int] != vstd::utf8::encode_utf8(
            seq@,
        )[from_idx as int]),
{
    let bytes = seq.as_str().as_bytes();
    bytes[n] != bytes[from_idx]
}

/// The first position of `seq` whose byte differs from the one at `from_idx`,
/// if there is one.
pub fn first_other_position(seq: &String, from_idx: usize) -> (r: Option<usize>)
    requires
        from_idx < vstd::utf8::encode_utf8(seq@).len(),
    ensures
        ({
            let b = vstd::utf8::encode_utf8(seq@);
            match r {
                Some(k) => {
                    &&& k < b.len()
                    &&& b[k as int] != b[from_idx as int]
                    &&& forall|j: int| 0 <= j < k ==> #[trigger] b[j] == b[from_idx as int]
                },
                None => forall|j: int| 0 <= j < b.len() ==> #[trigger] b[j] == b[from_idx as int],
            }
        }),
{
    let bytes = seq.as_str().as_bytes();
    let ghost b = vstd::utf8::encode_utf8(seq@);
    let mut k: usize = 0;
    while k < bytes.len()
        invariant
            b == vstd::utf8::encode_utf8(seq@),
            bytes@ == b,
            from_idx < b.len(),
            k <= b.len(),
            forall|j: int| 0 <= j < k ==> #[trigger] b[j] == b[from_idx as int],
        decreases b.len() - k,
    {
        if bytes[k] != bytes[from_idx] {
            return Some(k);
        }
        k += 1;
    }
    None
}

/// `b` is the first position of `w` holding another character than position `a`.
pub open spec fn is_first_other(w: Seq<char>, a: int, b: int) -> bool {
    &&& 0 <= b < w.len()
    &&& w[b] != w[a]
    &&& forall|j: int| 0 <= j < b ==> #[trigger] w[j] == w[a]
}

/// The first position of `w` holding another character than position `a`.
pub open spec fn first_other(w: Seq<char>, a: int) -> int {
    choose|b: int| is_first_other(w, a, b)
}

/// `d` is a run of position draws for breaking `w`: the first draw, then
/// partner draws of which every one but the last holds the first draw's
/// character; the last holds another one, unless all `2^64 - 1` partner draws
/// missed.
pub open spec fn is_swap_run(w: Seq<char>, d: Seq<usize>) -> bool {
    &&& d.len() >= 2
    &&& forall|j: int| 0 <= j < d.len() ==> #[trigger] d[j] < w.len()
    &&& forall|j: int| 1 <= j < d.len() - 1 ==> w[#[trigger] d[j] as int] == w[d[0] as int]
    &&& w[d[d.len() - 1] as int] == w[d[0] as int] ==> d.len() == u64::MAX + 1
}

/// The partner that the run `d` picks for its first draw: the last draw when
/// it holds another character, otherwise the first position that does.
pub open spec fn drawn_partner(w: Seq<char>, d: Seq<usize>) -> int {
    if w[d[d.len() - 1] as int] != w[d[0] as int] {
        d[d.len() - 1] as int
    } else {
        first_other(w, d[0] as int)
    }
}

/// A string with two different characters has, for every position, a first
/// position holding another character.
pub proof fn lemma_first_other(w: Seq<char>, a: int)
    requires
        has_two_kinds(w),
        0 <= a < w.len(),
    ensures
        is_first_other(w, a, first_other(w, a)),
{
    let (p, q) = choose|p: int, q: int| 0 <= p < w.len() && 0 <= q < w.len() && w[p] != w[q];
    let b = if w[p] != w[a] { p } else { q };
    lemma_least_other(w, a, 0, b);
}

proof fn lemma_least_other(w: Seq<char>, a: int, k: int, b: int)
    requires
        0 <= a < w.len(),
        0 <= k <= b < w.len(),
        w[b] != w[a],
        forall|j: int| 0 <= j < k ==> #[trigger] w[j] == w[a],
    ensures
        exists|c: int| is_first_other(w, a, c),
    decreases b - k,
{
    if w[k] != w[a] {
        assert(is_first_other(w, a, k));
    } else {
        lemma_least_other(w, a, k + 1, b);
    }
}

/// The first position and the partner that a run picks differ in character.
pub proof fn lemma_run_fits(w: Seq<char>, d: Seq<usize>)
    requires
        is_swap_run(w, d),
        has_two_kinds(w),
    ensures
        swap_fits(w, d[0] as int, drawn_partner(w, d)),
{
    lemma_first_other(w, d[0] as int);
}

/// Makes the position draws for breaking `seq`: the first uniform over the
/// string, then partner draws uniform over the string until
/// `partner_accepted` accepts one, or `2^64 - 1` of them missed. Returns
/// every draw in order.
pub fn draw_swap_run(seq: &String) -> (d: Vec<usize>)
    requires
        vstd::utf8::is_ascii_chars(seq@),
        has_two_kinds(seq@),
        seq@.len() <= 0x20_0000_0000_0000,
    ensures
        is_swap_run(seq@, d@),
{
    let ghost w = seq@;
    let ghost b = vstd::utf8::encode_utf8(w);
    proof {
        lemma_ascii_bytes(w);
        let (p, q) = choose|p: int, q: int| 0 <= p < w.len() && 0 <= q < w.len() && w[p] != w[q];
        assert(w.len() >= 1);
    }
    let len = seq.as_str().as_bytes().len();
    let from_idx = random_index(len);
    let mut d: Vec<usize> = Vec::new();
    d.push(from_idx);
    let mut found = false;
    let mut attempts: u64 = 0;
    while !found && attempts < u64::MAX
        invariant
            w == seq@,
            b == vstd::utf8::encode_utf8(w),
            len == b.len() == w.len(),
            1 <= len <= 0x20_0000_0000_0000,
            forall|j: int| 0 <= j < w.len() ==> (#[trigger] b[j]) as char == w[j],
            d@.len() == attempts + 1,
            d@[0] == from_idx,
            from_idx < len,
            forall|j: int| 0 <= j < d@.len() ==> #[trigger] d@[j] < w.len(),
            forall|j: int| 1 <= j < d@.len() - 1 ==> w[#[trigger] d@[j] as int] == w[d@[0] as int],
            found ==> w[d@[d@.len() - 1] as int] != w[from_idx as int],
            !found && attempts > 0 ==> w[d@[d@.len() - 1] as int] == w[from_idx as int],
        decreases u64::MAX - attempts,
    {
        let n = random_index(len);
        let ok = partner_accepted(seq, from_idx, n);
        proof {
            assert(b[n as int] as char == w[n as int]);
            assert(b[from_idx as int] as char == w[from_idx as int]);
        }
        d.push(n);
        if ok {
            found = true;
        }
        attempts += 1;
    }
    d
}

/// The two positions that the run `d` swaps: its first draw, and its last
/// draw when `partner_accepted` accepts that one, otherwise
/// `first_other_position`.
pub fn swap_of_run(seq: &String, d: &Vec<usize>) -> (res: (usize, usize))
    requires
        vstd::utf8::is_ascii_chars(seq@),
        has_two_kinds(seq@),
        is_swap_run(seq@, d@),
    ensures
        res.0 == d@[0],
        res.1 == drawn_partner(seq@, d@),
        swap_fits(seq@, res.0 as int, res.1 as int),
{
    let ghost w = seq@;
    let ghost b = vstd::utf8::encode_utf8(w);
    proof {
        lemma_ascii_bytes(w);
        lemma_run_fits(w, d@);
        lemma_first_other(w, d@[0] as int);
    }
    let from_idx = d[0];
    let last = d[d.len() - 1];
    proof {
        assert(b[last as int] as char == w[last as int]);
        assert(b[from_idx as int] as char == w[from_idx as int]);
    }
    if partner_accepted(seq, from_idx, last) {
        (from_idx, last)
    } else {
        match first_other_position(seq, from_idx) {
            Some(k) => {
                proof {
                    let f = first_other(w, from_idx as int);
                    assert(b[k as int] as char == w[k as int]);
                    if f < k {
                        assert(b[f] == b[from_idx as int]);
                        assert(b[f] as char == w[f]);
                    } else if k < f {
                        assert(w[k as int] == w[from_idx as int]);
                    }
                }
                (from_idx, k)
            },
            None => {
                proof {
                    let f = first_other(w, from_idx as int);
                    assert(b[f] == b[from_idx as int]);
                    assert(b[f] as char == w[f]);
                }
                (from_idx, from_idx)
            },
        }
    }
}

/// Draws the two positions that breaking `seq` swaps: `draw_swap_run` makes
/// the draws, and `swap_of_run` reads the positions off them.
pub fn draw_swap(seq: &String) -> (res: (usize, usize))
    requires
        vstd::utf8::is_ascii_chars(seq@),
        has_two_kinds(seq@),
        seq@.len() <= 0x20_0000_0000_0000,
    ensures
        swap_fits(seq@, res.0 as int, res.1 as int),
        exists|d: Seq<usize>|
            is_swap_run(seq@, d) && res.0 == d[0] && res.1 == drawn_partner(seq@, d),
{
    let d = draw_swap_run(seq);
    swap_of_run(seq, &d)
}

/// The partner that a run of draws picks holds another character than the
/// first draw; it is the partner draw that holds another character when one
/// does, and otherwise the first position of the string that does.
pub proof fn lemma_drawn_partner(w: Seq<char>, d: Seq<usize>)
    requires
        is_swap_run(w, d),
        has_two_kinds(w),
    ensures
        0 <= drawn_partner(w, d) < w.len(),
        w[drawn_partner(w, d)] != w[d[0] as int],
        forall|j: int|
            1 <= j < d.len() && w[#[trigger] d[j] as int] != w[d[0] as int] ==> drawn_partner(w, d)
                == d[j],
        (forall|j: int| 1 <= j < d.len() ==> w[#[trigger] d[j] as int] == w[d[0] as int])
            ==> forall|k: int| 0 <= k < drawn_partner(w, d) ==> #[trigger] w[k] == w[d[0] as int],
{
    lemma_first_other(w, d[0] as int);
}

/// Every two positions holding different characters can be the swap: the run
/// that draws the first and then the second picks them.
pub proof fn lemma_every_swap_reachable(w: Seq<char>, a: int, b: int)
    requires
        swap_fits(w, a, b),
        w.len() <= usize::MAX,
    ensures
        is_swap_run(w, seq![a as usize, b as usize]),
        seq![a as usize, b as usize][0] == a,
        drawn_partner(w, seq![a as usize, b as usize]) == b,
{
}

/// Exchanges the characters at positions `a` and `b` of `seq`.
pub fn swap_positions(seq: &mut String, a: usize, b: usize)
    requires
        vstd::utf8::is_ascii_chars(old(seq)@),
        a < old(seq)@.len(),
        b < old(seq)@.len(),
        4 * (old(seq)@.len() + 1) <= isize::MAX,
    ensures
        final(seq)@ == swapped(old(seq)@, a as int, b as int),
{
    let ghost w = seq@;
    proof {
        lemma_ascii_bytes(w);
    }
    let bytes = seq.as_str().as_bytes();
    let len = bytes.len();
    let mut result = crate::text::string_with_capacity(len);
    let ghost target = swapped(w, a as int, b as int);
    let mut k: usize = 0;
    while k < len
        invariant
            len == bytes@.len() == w.len(),
            a < len,
            b < len,
            k <= len,
            4 * (w.len() + 1) <= isize::MAX,
            forall|j: int| 0 <= j < len ==> (#[trigger] bytes@[j]) as char == w[j],
            target == swapped(w, a as int, b as int),
            result@ == target.take(k as int),
        decreases len - k,
    {
        let c = if k == b {
            bytes[a]
        } else if k == a {
            bytes[b]
        } else {
            bytes[k]
        };
        crate::text::string_push(&mut result, c as char);
        k += 1;
        proof {
            assert(result@ =~= target.take(k as int));
        }
    }
    proof {
        assert(result@ =~= target);
    }
    *seq = result;
}

/// Swaps two randomly chosen characters of `seq` that differ: the first
/// position is drawn uniformly, the partner is drawn uniformly until it holds
/// the other character (`draw_swap_run`). Returns the draws made; the result
/// is fixed by them.
pub fn break_valid_paren_sequence(seq: &mut String) -> (d: Vec<usize>)
    requires
        vstd::utf8::is_ascii_chars(old(seq)@),
        has_two_kinds(old(seq)@),
        4 * (old(seq)@.len() + 1) <= isize::MAX,
        old(seq)@.len() <= 0x20_0000_0000_0000,
    ensures
        exists|a: int, b: int|
            swap_fits(old(seq)@, a, b) && final(seq)@ == swapped(old(seq)@, a, b),
        is_swap_of(final(seq)@, old(seq)@),
        is_swap_run(old(seq)@, d@),
        final(seq)@ == swapped(old(seq)@, d@[0] as int, drawn_partner(old(seq)@, d@)),
{
    let ghost w = seq@;
    let d = draw_swap_run(seq);
    let (from_idx, to_idx) = swap_of_run(seq, &d);
    swap_positions(seq, from_idx, to_idx);
    proof {
        assert(swap_fits(w, from_idx as int, to_idx as int) && seq@ == swapped(w, from_idx as int, to_idx as int));
    }
    d
}

/// A well-formed sequence of at least one pair is ASCII, holds both kinds of
/// parenthesis, opens first and closes last.
pub proof fn lemma_word_properties(w: Seq<char>, n: nat)
    requires
        is_word(w, n),
        n >= 1,
    ensures
        vstd::utf8::is_ascii_chars(w),
        has_two_kinds(w),
        w[0] == '(',
        w[w.len() - 1] == ')',
{
    assert forall|i: int| 0 <= i < w.len() implies '\0' <= #[trigger] w[i] <= '\u{7f}' by {
        assert(is_paren(w[i]));
    }
    assert(w.take(1) =~= Seq::<char>::empty().push(w[0]));
    lemma_push_nesting(Seq::<char>::empty(), w[0]);
    assert(nesting(w.take(1)) >= 0);
    assert(is_paren(w[0]));
    let k = w.len() - 1;
    assert(w =~= w.take(k).push(w[k]));
    lemma_push_nesting(w.take(k), w[k]);
    assert(nesting(w.take(k)) >= 0);
    assert(is_paren(w[k]));
    assert(w[0] != w[k]);
    assert(0 <= 0 < w.len() && 0 <= k < w.len() && w[0] != w[k]);
}

/// Every well-formed sequence of at least one pair passes `is_valid`.
pub proof fn lemma_word_is_valid(w: Seq<char>, n: nat)
    requires
        is_word(w, n),
        n >= 1,
        w.len() <= isize::MAX,
    ensures
        is_valid_returns(vstd::utf8::encode_utf8(w)),
        is_valid_bytes(vstd::utf8::encode_utf8(w)),
{
    lemma_is_valid_parens(w);
    assert(!reaches_stray(byte_chars(vstd::utf8::encode_utf8(w))));
}

/// `v` is the sequence `w` itself or `w` with two different characters swapped.
pub open spec fn is_variant_of(v: Seq<char>, w: Seq<char>) -> bool {
    v == w || is_swap_of(v, w)
}

/// The basic lock: the well-formed sequences of some number of pairs, about
/// half of them broken by a swap, which the player's script must tell apart.
pub struct Basic {
    pub variants: Vec<String>,
}

/// What every outcome of `Basic::new(n_pairs)` holds: one variant for each
/// well-formed sequence of `n_pairs` pairs, in dictionary order, each kept or
/// broken by a swap.
pub open spec fn is_basic_lock(variants: Seq<String>, n_pairs: nat) -> bool {
    exists|g: Seq<Seq<char>>|
        #![trigger lists_completions(g, Seq::<char>::empty(), n_pairs)]
        lists_completions(g, Seq::<char>::empty(), n_pairs) && g.len() == variants.len() && forall|
            i: int,
        |
            0 <= i < g.len() ==> is_variant_of(#[trigger] variants[i]@, g[i])
}

/// The inputs on which `is_valid` returns for every variant.
pub open spec fn variants_checkable(variants: Seq<String>) -> bool {
    forall|i: int|
        0 <= i < variants.len() ==> is_valid_returns(vstd::utf8::encode_utf8(#[trigger] variants[i]@))
}

/// What the draws make of word `w` of a lock of `n` pairs: a coin draw from
/// `BREAK_BELOW` on, or a lock of no pairs, keeps `w` as it is and makes no
/// position draws; a lower coin draw breaks it by swapping the first position
/// drawn with the partner that the position draws `run` pick.
pub open spec fn word_from_draws(v: Seq<char>, w: Seq<char>, coin: u32, run: Seq<usize>, n: nat) -> bool {
    if coin >= BREAK_BELOW || n == 0 {
        v == w && run.len() == 0
    } else {
        is_swap_run(w, run) && v == swapped(w, run[0] as int, drawn_partner(w, run))
    }
}

/// `variants` is the lock of `n` pairs that the coin draws `coins` and the
/// position draws `runs` make: one variant for each well-formed sequence, in
/// dictionary order, made from it by its draws.
pub open spec fn lock_of_draws(
    variants: Seq<String>,
    coins: Seq<u32>,
    runs: Seq<Vec<usize>>,
    n: nat,
) -> bool {
    exists|g: Seq<Seq<char>>|
        #![trigger lists_completions(g, Seq::<char>::empty(), n)]
        lists_completions(g, Seq::<char>::empty(), n) && g.len() == variants.len() && coins.len()
            == g.len() && runs.len() == g.len() && forall|i: int|
            0 <= i < g.len() ==> word_from_draws(
                #[trigger] variants[i]@,
                g[i],
                coins[i],
                runs[i]@,
                n,
            )
}

/// What the draws make of word `w`: `w` itself when `keep`, otherwise `w`
/// with the characters at `from` and `to` exchanged.
pub open spec fn drawn_variant(w: Seq<char>, keep: bool, from: int, to: int) -> Seq<char> {
    if keep {
        w
    } else {
        swapped(w, from, to)
    }
}

/// In a lock made by its draws, a word is broken exactly when its coin draw
/// is below `BREAK_BELOW` and the lock has at least one pair; a broken word is
/// the word with two different characters swapped.
pub proof fn lemma_low_draws_break(
    variants: Seq<String>,
    coins: Seq<u32>,
    runs: Seq<Vec<usize>>,
    n: nat,
)
    requires
        lock_of_draws(variants, coins, runs, n),
    ensures
        exists|g: Seq<Seq<char>>|
            #![trigger lists_completions(g, Seq::<char>::empty(), n)]
            lists_completions(g, Seq::<char>::empty(), n) && g.len() == variants.len() && forall|
                i: int,
            |
                0 <= i < g.len() ==> {
                    &&& ((#[trigger] variants[i]@ == g[i]) <==> (coins[i] >= BREAK_BELOW || n == 0))
                    &&& (coins[i] < BREAK_BELOW && n >= 1) ==> is_swap_of(variants[i]@, g[i])
                },
{
    let g = choose|g: Seq<Seq<char>>|
        #![trigger lists_completions(g, Seq::<char>::empty(), n)]
        lists_completions(g, Seq::<char>::empty(), n) && g.len() == variants.len() && coins.len()
            == g.len() && runs.len() == g.len() && forall|i: int|
            0 <= i < g.len() ==> word_from_draws(
                #[trigger] variants[i]@,
                g[i],
                coins[i],
                runs[i]@,
                n,
            );
    assert forall|i: int| 0 <= i < g.len() implies {
        &&& ((#[trigger] variants[i]@ == g[i]) <==> (coins[i] >= BREAK_BELOW || n == 0))
        &&& (coins[i] < BREAK_BELOW && n >= 1) ==> is_swap_of(variants[i]@, g[i])
    } by {
        assert(word_from_draws(variants[i]@, g[i], coins[i], runs[i]@, n));
        if coins[i] < BREAK_BELOW && n >= 1 {
            assert(is_word(g[i], n));
            lemma_word_properties(g[i], n);
            let d = runs[i]@;
            lemma_run_fits(g[i], d);
            let a = d[0] as int;
            let b = drawn_partner(g[i], d);
            assert(variants[i]@[b] == g[i][a]);
            assert(variants[i]@ != g[i]);
            assert(0 <= a < g[i].len() && 0 <= b < g[i].len() && g[i][a] != g[i][b]
                && variants[i]@ == g[i].update(a, g[i][b]).update(b, g[i][a]));
        }
    }
}

impl Basic {
    /// Generates every well-formed sequence of `n_pairs` pairs and breaks each
    /// one with probability one half, as `new_with_draws` does.
    pub fn new(n_pairs: usize) -> (res: Self)
        requires
            catalan_fits(n_pairs as nat),
        ensures
            is_basic_lock(res.variants@, n_pairs as nat),
            res.variants.len() == catalan(n_pairs as nat),
            variants_checkable(res.variants@),
            exists|coins: Seq<u32>, runs: Seq<Vec<usize>>|
                lock_of_draws(res.variants@, coins, runs, n_pairs as nat),
    {
        let (lock, coins, runs) = Self::new_with_draws(n_pairs);
        proof {
            assert(lock_of_draws(lock.variants@, coins@, runs@, n_pairs as nat));
        }
        lock
    }

    /// Generates every well-formed sequence of `n_pairs` pairs and breaks each
    /// one with probability one half: word by word, in order, the generator
    /// draws a `u32` (returned in the second list), `keeps_word` decides from
    /// it, and for a word to break `draw_swap_run` makes the position draws
    /// (returned in the third list; empty for a kept word) and `swap_of_run`
    /// reads the swap off them. `lock_from_draws` applies the swaps. With no
    /// pairs the one sequence is empty and has nothing to swap: it is kept
    /// whatever the draw.
    pub fn new_with_draws(n_pairs: usize) -> (res: (Self, Vec<u32>, Vec<Vec<usize>>))
        requires
            catalan_fits(n_pairs as nat),
        ensures
            is_basic_lock(res.0.variants@, n_pairs as nat),
            res.0.variants.len() == catalan(n_pairs as nat),
            variants_checkable(res.0.variants@),
            lock_of_draws(res.0.variants@, res.1@, res.2@, n_pairs as nat),
    {
        proof {
            lemma_catalan_fits_small(n_pairs as nat);
        }
        let sequences = generate_valid_paren_sequence(n_pairs);
        let ghost g = words(sequences@);
        proof {
            assert(lists_completions(g, Seq::<char>::empty(), n_pairs as nat)) by {
                assert forall|i: int| 0 <= i < g.len() implies is_word(#[trigger] g[i], n_pairs as nat)
                    && has_prefix(g[i], Seq::<char>::empty()) by {
                    assert(g[i] == sequences[i]@);
                    assert(g[i].take(0) =~= Seq::<char>::empty());
                }
            }
        }
        let mut keep: Vec<bool> = Vec::new();
        let mut from: Vec<usize> = Vec::new();
        let mut to: Vec<usize> = Vec::new();
        let mut coins: Vec<u32> = Vec::new();
        let mut runs: Vec<Vec<usize>> = Vec::new();
        let mut i: usize = 0;
        while i < sequences.len()
            invariant
                g == words(sequences@),
                g.len() == catalan(n_pairs as nat),
                i <= sequences@.len(),
                keep@.len() == i,
                from@.len() == i,
                to@.len() == i,
                coins@.len() == i,
                runs@.len() == i,
                4 * (2 * n_pairs + 1) <= isize::MAX,
                n_pairs < 0x1_0000_0000,
                lists_completions(g, Seq::<char>::empty(), n_pairs as nat),
                forall|j: int|
                    0 <= j < i ==> #[trigger] keep@[j] == (coins@[j] >= BREAK_BELOW || n_pairs == 0),
                forall|j: int| 0 <= j < i && #[trigger] keep@[j] ==> runs@[j]@.len() == 0,
                forall|j: int|
                    0 <= j < i && !(#[trigger] keep@[j]) ==> {
                        &&& n_pairs >= 1
                        &&& is_swap_run(g[j], runs@[j]@)
                        &&& from@[j] == runs@[j]@[0]
                        &&& to@[j] == drawn_partner(g[j], runs@[j]@)
                        &&& swap_fits(g[j], from@[j] as int, to@[j] as int)
                    },
            decreases sequences@.len() - i,
        {
            let draw = random_u32();
            let keep_word = keeps_word(draw, n_pairs);
            let mut f: usize = 0;
            let mut t: usize = 0;
            let mut run: Vec<usize> = Vec::new();
            if !keep_word {
                proof {
                    assert(g[i as int] == sequences[i as int]@);
                    assert(is_word(g[i as int], n_pairs as nat));
                    lemma_word_properties(g[i as int], n_pairs as nat);
                }
                run = draw_swap_run(&sequences[i]);
                let (a, b) = swap_of_run(&sequences[i], &run);
                f = a;
                t = b;
            }
            keep.push(keep_word);
            from.push(f);
            to.push(t);
            coins.push(draw);
            runs.push(run);
            i += 1;
        }
        proof {
            assert forall|j: int| 0 <= j < sequences.len() && !(#[trigger] keep@[j]) implies {
                &&& vstd::utf8::is_ascii_chars(sequences@[j]@)
                &&& 4 * (sequences@[j]@.len() + 1) <= isize::MAX
                &&& from@[j] < sequences@[j]@.len()
                &&& to@[j] < sequences@[j]@.len()
            } by {
                assert(g[j] == sequences@[j]@);
                lemma_word_properties(g[j], n_pairs as nat);
            }
        }
        let res = Self::lock_from_draws(sequences, &keep, &from, &to);
        proof {
            assert forall|j: int| 0 <= j < g.len() implies is_variant_of(
                #[trigger] res.variants@[j]@,
                g[j],
            ) by {
                if !keep@[j] {
                    let (a, b) = (from@[j] as int, to@[j] as int);
                    assert(swap_fits(g[j], a, b));
                    assert(0 <= a < g[j].len() && 0 <= b < g[j].len() && g[j][a] != g[j][b]
                        && res.variants@[j]@ == g[j].update(a, g[j][b]).update(b, g[j][a]));
                }
            }
            assert(is_basic_lock(res.variants@, n_pairs as nat));
            assert forall|j: int| 0 <= j < res.variants.len() implies is_valid_returns(
                vstd::utf8::encode_utf8(#[trigger] res.variants@[j]@),
            ) by {
                lemma_variant_checkable(res.variants@[j]@, g[j], n_pairs as nat);
            }
            assert forall|j: int| 0 <= j < g.len() implies word_from_draws(
                #[trigger] res.variants@[j]@,
                g[j],
                coins@[j],
                runs@[j]@,
                n_pairs as nat,
            ) by {
                assert(keep@[j] == (coins@[j] >= BREAK_BELOW || n_pairs == 0));
            }
            assert(lock_of_draws(res.variants@, coins@, runs@, n_pairs as nat));
        }
        (res, coins, runs)
    }

    /// The lock that the draws make of `words`: word `i` as it is when
    /// `keep[i]`, otherwise with the characters at `from[i]` and `to[i]`
    /// exchanged.
    pub fn lock_from_draws(
        words: Vec<String>,
        keep: &Vec<bool>,
        from: &Vec<usize>,
        to: &Vec<usize>,
    ) -> (res: Self)
        requires
            keep.len() == words.len(),
            from.len() == words.len(),
            to.len() == words.len(),
            forall|i: int|
                0 <= i < words.len() && !(#[trigger] keep@[i]) ==> {
                    &&& vstd::utf8::is_ascii_chars(words@[i]@)
                    &&& 4 * (words@[i]@.len() + 1) <= isize::MAX
                    &&& from@[i] < words@[i]@.len()
                    &&& to@[i] < words@[i]@.len()
                },
        ensures
            res.variants.len() == words.len(),
            forall|i: int|
                0 <= i < words.len() ==> #[trigger] res.variants@[i]@ == drawn_variant(
                    words@[i]@,
                    keep@[i],
                    from@[i] as int,
                    to@[i] as int,
                ),
    {
        let ghost w = words@;
        let mut variants = words;
        let mut i: usize = 0;
        while i < variants.len()
            invariant
                variants@.len() == w.len(),
                keep.len() == w.len(),
                from.len() == w.len(),
                to.len() == w.len(),
                i <= w.len(),
                forall|j: int|
                    0 <= j < w.len() && !(#[trigger] keep@[j]) ==> {
                        &&& vstd::utf8::is_ascii_chars(w[j]@)
                        &&& 4 * (w[j]@.len() + 1) <= isize::MAX
                        &&& from@[j] < w[j]@.len()
                        &&& to@[j] < w[j]@.len()
                    },
                forall|j: int|
                    0 <= j < i ==> #[trigger] variants@[j]@ == drawn_variant(
                        w[j]@,
                        keep@[j],
                        from@[j] as int,
                        to@[j] as int,
                    ),
                forall|j: int| i <= j < w.len() ==> #[trigger] variants@[j] == w[j],
            decreases w.len() - i,
        {
            if !keep[i] {
                let mut broken = variants[i].clone();
                swap_positions(&mut broken, from[i], to[i]);
                variants.set(i, broken);
            }
            i += 1;
        }
        Basic { variants }
    }

    /// Asks `cb` about every variant in turn and stops at the first answer that
    /// is an error or differs from `is_valid`; returns whether none did.
    /// `is_valid` runs only on the variants that `cb` answered with `Ok`.
    pub fn is_valid_with<E, F: Fn(&str) -> Result<bool, E>>(&self, cb: F) -> (res: bool)
        requires
            checkable_with(cb, self.variants@),
            forall|s: &str| #[trigger] cb.requires((s,)),
        ensures
            res ==> forall|i: int|
                0 <= i < self.variants.len() ==> #[trigger] answered_right(cb, self.variants@[i]),
            !res ==> exists|i: int|
                0 <= i < self.variants.len() && #[trigger] answered_wrong(cb, self.variants@[i]),
    {
        let mut i: usize = 0;
        while i < self.variants.len()
            invariant
                i <= self.variants.len(),
                checkable_with(cb, self.variants@),
                forall|s: &str| #[trigger] cb.requires((s,)),
                forall|j: int| 0 <= j < i ==> #[trigger] answered_right(cb, self.variants@[j]),
            decreases self.variants.len() - i,
        {
            let seq = self.variants[i].as_str();
            let answer = cb(seq);
            let agrees = match answer {
                Ok(b) => {
                    assert(may_answer_ok(cb, self.variants@[i as int]));
                    assert(seq.spec_bytes() == vstd::utf8::encode_utf8(self.variants@[i as int]@));
                    b == is_valid(seq)
                },
                Err(_) => false,
            };
            if !agrees {
                assert(answered_wrong(cb, self.variants@[i as int]));
                return false;
            }
            assert(answered_right(cb, self.variants@[i as int]));
            i += 1;
        }
        true
    }
}

/// One call of `cb` on the text of `v` may answer `Ok`.
pub open spec fn may_answer_ok<E, F: Fn(&str) -> Result<bool, E>>(cb: F, v: String) -> bool {
    exists|s: &str, r: Result<bool, E>| #[trigger] cb.ensures((s,), r) && s@ == v@ && r is Ok
}

/// `is_valid` returns on every variant that `cb` may answer with `Ok`.
pub open spec fn checkable_with<E, F: Fn(&str) -> Result<bool, E>>(
    cb: F,
    variants: Seq<String>,
) -> bool {
    forall|i: int|
        0 <= i < variants.len() && #[trigger] may_answer_ok(cb, variants[i])
            ==> is_valid_returns(vstd::utf8::encode_utf8(variants[i]@))
}

/// One call of `cb` on the text of `v` may answer `Ok` with what `is_valid`
/// says of `v`.
pub open spec fn answered_right<E, F: Fn(&str) -> Result<bool, E>>(cb: F, v: String) -> bool {
    exists|s: &str, r: Result<bool, E>|
        #[trigger] cb.ensures((s,), r) && s@ == v@ && r == Ok::<bool, E>(
            is_valid_bytes(vstd::utf8::encode_utf8(v@)),
        )
}

/// One call of `cb` on the text of `v` may answer with an error or with the
/// opposite of what `is_valid` says of `v`.
pub open spec fn answered_wrong<E, F: Fn(&str) -> Result<bool, E>>(cb: F, v: String) -> bool {
    exists|s: &str, r: Result<bool, E>|
        #[trigger] cb.ensures((s,), r) && s@ == v@ && r != Ok::<bool, E>(
            is_valid_bytes(vstd::utf8::encode_utf8(v@)),
        )
}

/// A variant of a well-formed sequence can be checked by `is_valid`.
proof fn lemma_variant_checkable(v: Seq<char>, w: Seq<char>, n: nat)
    requires
        is_word(w, n),
        w.len() <= isize::MAX,
        is_variant_of(v, w),
    ensures
        is_valid_returns(vstd::utf8::encode_utf8(v)),
{
    assert(v.len() == w.len());
    assert(all_parens(v)) by {
        assert forall|i: int| 0 <= i < v.len() implies is_paren(#[trigger] v[i]) by {
            assert(is_paren(w[i]));
            if v != w {
                let (a, b) = choose|a: int, b: int|
                    0 <= a < w.len() && 0 <= b < w.len() && w[a] != w[b] && v == w.update(
                        a,
                        w[b],
                    ).update(b, w[a]);
                assert(is_paren(w[a]));
                assert(is_paren(w[b]));
            }
        }
    }
    lemma_is_valid_parens(v);
    assert(!reaches_stray(byte_chars(vstd::utf8::encode_utf8(v))));
}

/// The number of pairs in the default lock.
pub const N_PAIRS: usize = 10;

/// The first Catalan numbers, and room for the default lock.
proof fn lemma_catalan_fits_default()
    ensures
        catalan(1) == 1,
        catalan(2) == 2,
        catalan(3) == 5,
        catalan(4) == 14,
        catalan_fits(N_PAIRS as nat),
{
    lemma_catalan_exact(0);
    assert(binomial(0, 0) == 1);
    assert(catalan(0) == 1);
    lemma_catalan_step(1);
    assert(2 * catalan(1) == catalan(0) * 2 * 1);
    assert(catalan(1) == 1);
    lemma_catalan_step(2);
    assert(3 * catalan(2) == catalan(1) * 2 * 3);
    assert(catalan(2) == 2);
    lemma_catalan_step(3);
    assert(4 * catalan(3) == catalan(2) * 2 * 5);
    assert(catalan(3) == 5);
    lemma_catalan_step(4);
    assert(5 * catalan(4) == catalan(3) * 2 * 7);
    assert(catalan(4) == 14);
    lemma_catalan_step(5);
    assert(6 * catalan(5) == catalan(4) * 2 * 9);
    assert(catalan(5) == 42);
    lemma_catalan_step(6);
    assert(7 * catalan(6) == catalan(5) * 2 * 11);
    assert(catalan(6) == 132);
    lemma_catalan_step(7);
    assert(8 * catalan(7) == catalan(6) * 2 * 13);
    assert(catalan(7) == 429);
    lemma_catalan_step(8);
    assert(9 * catalan(8) == catalan(7) * 2 * 15);
    assert(catalan(8) == 1430);
    lemma_catalan_step(9);
    assert(10 * catalan(9) == catalan(8) * 2 * 17);
    assert(catalan(9) == 4862);
    assert(usize::MAX >= 0xffff_ffff);
    assert forall|i: nat| 1 <= i <= N_PAIRS implies #[trigger] catalan((i - 1) as nat) * 2 * (2 * i
        - 1) <= usize::MAX by {
        assert(catalan((i - 1) as nat) <= 4862);
        assert(catalan((i - 1) as nat) * 2 * (2 * i - 1) <= 4862 * 2 * 19) by (nonlinear_arith)
            requires
                catalan((i - 1) as nat) <= 4862,
                1 <= i <= 10,
        ;
    }
}

impl Default for Basic {
    /// A lock of ten pairs.
    fn default() -> (res: Self)
        ensures
            is_basic_lock(res.variants@, N_PAIRS as nat),
            res.variants.len() == catalan(N_PAIRS as nat),
            variants_checkable(res.variants@),
    {
        proof {
            lemma_catalan_fits_default();
        }
        Self::new(N_PAIRS)
    }
}

} // verus!
