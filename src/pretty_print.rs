//! The canonical infix form of pipeline definitions. Every composite node
//! puts parentheses around its children that are not leaves.

use vstd::prelude::*;
use crate::ast::{Access, Comparison, Condition, Definition, Func, Var, VarExpr};

verus! {

/// The decimal digits, by value.
pub open spec fn digit_chars() -> Seq<char> {
    seq!['0', '1', '2', '3', '4', '5', '6', '7', '8', '9']
}

/// The decimal digits of `n`, most significant first, without leading zeros.
pub open spec fn nat_digits(n: nat) -> Seq<char>
    decreases n,
{
    if n < 10 {
        seq![digit_chars()[n as int]]
    } else {
        nat_digits(n / 10).push(digit_chars()[(n % 10) as int])
    }
}

/// The decimal form of `i`, with a leading `-` when it is negative.
pub open spec fn decimal(i: int) -> Seq<char> {
    if i < 0 {
        seq!['-'] + nat_digits((-i) as nat)
    } else {
        nat_digits(i as nat)
    }
}

fn digit_str(d: u64) -> (r: &'static str)
    requires
        d < 10,
    ensures
        r@ == seq![digit_chars()[d as int]],
{
    proof {
        reveal_strlit("0");
        reveal_strlit("1");
        reveal_strlit("2");
        reveal_strlit("3");
        reveal_strlit("4");
        reveal_strlit("5");
        reveal_strlit("6");
        reveal_strlit("7");
        reveal_strlit("8");
        reveal_strlit("9");
    }
    let r = match d {
        0 => "0",
        1 => "1",
        2 => "2",
        3 => "3",
        4 => "4",
        5 => "5",
        6 => "6",
        7 => "7",
        8 => "8",
        _ => "9",
    };
    assert(r@ =~= seq![digit_chars()[d as int]]);
    r
}

fn push_digits(s: &mut String, n: u64)
    ensures
        final(s)@ == old(s)@ + nat_digits(n as nat),
    decreases n,
{
    if n >= 10 {
        push_digits(s, n / 10);
    }
    s.append(digit_str(n % 10));
    assert(final(s)@ =~= old(s)@ + nat_digits(n as nat));
}

/// The decimal form of `v`.
pub fn decimal_string(v: i32) -> (r: String)
    ensures
        r@ == decimal(v as int),
{
    let mut s = String::new();
    if v < 0 {
        proof {
            reveal_strlit("-");
        }
        s.append("-");
        let n: u64 = (-(v as i64)) as u64;
        push_digits(&mut s, n);
    } else {
        push_digits(&mut s, v as u64);
    }
    assert(s@ =~= decimal(v as int));
    s
}

/// `x` or `y`.
pub open spec fn var_chars(v: Var) -> Seq<char> {
    match v {
        Var::X => seq!['x'],
        Var::Y => seq!['y'],
    }
}

/// `l op r`, with a space on each side of the operator.
pub open spec fn infix(l: Seq<char>, op: Seq<char>, r: Seq<char>) -> Seq<char> {
    l + seq![' '] + op + seq![' '] + r
}

/// `s` in parentheses unless it is printed from a leaf.
pub open spec fn parens_unless(leaf: bool, s: Seq<char>) -> Seq<char> {
    if leaf {
        s
    } else {
        seq!['('] + s + seq![')']
    }
}

impl VarExpr {
    pub open spec fn leaf(self) -> bool {
        self is Var || self is Const
    }

    pub open spec fn printed(self) -> Seq<char>
        decreases self,
    {
        match self {
            VarExpr::Var(v) => var_chars(v),
            VarExpr::Const(c) => decimal(c as int),
            VarExpr::Add(l, r) => infix(
                parens_unless(l.leaf(), l.printed()),
                seq!['+'],
                parens_unless(r.leaf(), r.printed()),
            ),
            VarExpr::Sub(l, r) => infix(
                parens_unless(l.leaf(), l.printed()),
                seq!['-'],
                parens_unless(r.leaf(), r.printed()),
            ),
            VarExpr::Mul(l, r) => infix(
                parens_unless(l.leaf(), l.printed()),
                seq!['*'],
                parens_unless(r.leaf(), r.printed()),
            ),
        }
    }
}

impl Comparison {
    pub open spec fn printed(self) -> Seq<char> {
        match self {
            Comparison::EQ => seq!['=', '='],
            Comparison::GT => seq!['>'],
            Comparison::GTE => seq!['>', '='],
            Comparison::LT => seq!['<'],
            Comparison::LTE => seq!['<', '='],
        }
    }
}

impl Access {
    pub open spec fn printed(self) -> Seq<char> {
        self.source@ + seq!['('] + self.x.printed() + seq![',', ' '] + self.y.printed() + seq![')']
    }
}

impl Definition {
    pub open spec fn leaf(self) -> bool {
        self is Access || self is Const
    }

    pub open spec fn printed(self) -> Seq<char>
        decreases self,
    {
        match self {
            Definition::Access(a) => a.printed(),
            Definition::Const(c) => decimal(c as int),
            Definition::Param(p) => p@,
            Definition::Cond(c) => seq!['i', 'f', ' '] + parens_unless(
                c.lhs.leaf(),
                c.lhs.printed(),
            ) + seq![' '] + c.cmp.printed() + seq![' '] + parens_unless(
                c.rhs.leaf(),
                c.rhs.printed(),
            ) + seq![' ', '{'] + parens_unless(c.if_true.leaf(), c.if_true.printed()) + seq![
                '}',
                ' ',
                'e',
                'l',
                's',
                'e',
                ' ',
                '{',
            ] + parens_unless(c.if_false.leaf(), c.if_false.printed()) + seq!['}'],
            Definition::Add(l, r) => infix(
                parens_unless(l.leaf(), l.printed()),
                seq!['+'],
                parens_unless(r.leaf(), r.printed()),
            ),
            Definition::Sub(l, r) => infix(
                parens_unless(l.leaf(), l.printed()),
                seq!['-'],
                parens_unless(r.leaf(), r.printed()),
            ),
            Definition::Mul(l, r) => infix(
                parens_unless(l.leaf(), l.printed()),
                seq!['*'],
                parens_unless(r.leaf(), r.printed()),
            ),
            Definition::Div(l, r) => infix(
                parens_unless(l.leaf(), l.printed()),
                seq!['/'],
                parens_unless(r.leaf(), r.printed()),
            ),
        }
    }
}

impl Func {
    pub open spec fn printed(self) -> Seq<char> {
        self.name@ + seq!['(', 'x', ',', ' ', 'y', ')', ' ', '=', ' '] + self.definition.printed()
    }
}

/// Parentheses opened minus parentheses closed in `s`.
pub open spec fn depth(s: Seq<char>) -> int
    decreases s.len(),
{
    if s.len() == 0 {
        0
    } else {
        depth(s.drop_last()) + if s.last() == '(' {
            1int
        } else if s.last() == ')' {
            -1int
        } else {
            0int
        }
    }
}

/// Every parenthesis of `s` is matched within `s`.
pub open spec fn balanced(s: Seq<char>) -> bool {
    depth(s) == 0 && forall|k: int| 0 <= k <= s.len() ==> depth(#[trigger] s.take(k)) >= 0
}

/// `s` holds no parenthesis and no space.
pub open spec fn plain(s: Seq<char>) -> bool {
    forall|k: int| 0 <= k < s.len() ==> #[trigger] s[k] != '(' && s[k] != ')' && s[k] != ' '
}

/// `s` holds no parenthesis.
pub open spec fn no_parens(s: Seq<char>) -> bool {
    forall|k: int| 0 <= k < s.len() ==> #[trigger] s[k] != '(' && s[k] != ')'
}

proof fn lemma_depth_concat(a: Seq<char>, b: Seq<char>)
    ensures
        depth(a + b) == depth(a) + depth(b),
    decreases b.len(),
{
    if b.len() > 0 {
        assert((a + b).drop_last() =~= a + b.drop_last());
        lemma_depth_concat(a, b.drop_last());
    } else {
        assert(a + b =~= a);
    }
}

proof fn lemma_plain_depth(s: Seq<char>)
    requires
        no_parens(s),
    ensures
        depth(s) == 0,
    decreases s.len(),
{
    if s.len() > 0 {
        assert(no_parens(s.drop_last()));
        lemma_plain_depth(s.drop_last());
    }
}

proof fn lemma_plain_balanced(s: Seq<char>)
    requires
        no_parens(s),
    ensures
        balanced(s),
{
    lemma_plain_depth(s);
    assert forall|k: int| 0 <= k <= s.len() implies depth(#[trigger] s.take(k)) >= 0 by {
        assert(no_parens(s.take(k)));
        lemma_plain_depth(s.take(k));
    }
}

proof fn lemma_balanced_concat(a: Seq<char>, b: Seq<char>)
    requires
        balanced(a),
        balanced(b),
    ensures
        balanced(a + b),
{
    lemma_depth_concat(a, b);
    assert forall|k: int| 0 <= k <= (a + b).len() implies depth(#[trigger] (a + b).take(k)) >= 0 by {
        if k <= a.len() {
            assert((a + b).take(k) =~= a.take(k));
        } else {
            assert((a + b).take(k) =~= a + b.take(k - a.len()));
            lemma_depth_concat(a, b.take(k - a.len()));
            assert(depth(b.take(k - a.len())) >= 0);
        }
    }
}

/// A balanced `t` in parentheses: every proper nonempty prefix is still
/// open, and the whole is closed.
proof fn lemma_wrapped(t: Seq<char>, rest: Seq<char>)
    requires
        balanced(t),
    ensures
        balanced(seq!['('] + t + seq![')']),
        forall|k: int| 1 <= k < t.len() + 2 ==> depth(#[trigger] (seq!['('] + t + seq![')'] + rest).take(k)) >= 1,
        depth((seq!['('] + t + seq![')'] + rest).take(t.len() + 2int)) == 0,
{
    let w = seq!['('] + t + seq![')'];
    let s = w + rest;
    let open_paren = seq!['('];
    let close_paren = seq![')'];
    assert(open_paren.drop_last() =~= Seq::<char>::empty());
    assert(close_paren.drop_last() =~= Seq::<char>::empty());
    assert(depth(Seq::<char>::empty()) == 0);
    assert(open_paren.last() == '(');
    assert(close_paren.last() == ')');
    assert(depth(open_paren) == 1);
    assert(depth(close_paren) == -1);
    lemma_depth_concat(seq!['('], t);
    lemma_depth_concat(seq!['('] + t, seq![')']);
    assert forall|k: int| 1 <= k < t.len() + 2 implies depth(#[trigger] s.take(k)) >= 1 by {
        assert(s.take(k) =~= seq!['('] + t.take(k - 1));
        lemma_depth_concat(seq!['('], t.take(k - 1));
        assert(depth(t.take(k - 1)) >= 0);
    }
    assert(s.take(t.len() + 2int) =~= w);
    assert forall|k: int| 0 <= k <= w.len() implies depth(#[trigger] w.take(k)) >= 0 by {
        if k == 0 {
            assert(w.take(0) =~= Seq::<char>::empty());
        } else if k < w.len() {
            assert(w.take(k) =~= s.take(k));
        } else {
            assert(w.take(k) =~= w);
        }
    }
}

/// The value of a decimal digit character.
pub open spec fn digit_value(c: char) -> int {
    if c == '0' {
        0
    } else if c == '1' {
        1
    } else if c == '2' {
        2
    } else if c == '3' {
        3
    } else if c == '4' {
        4
    } else if c == '5' {
        5
    } else if c == '6' {
        6
    } else if c == '7' {
        7
    } else if c == '8' {
        8
    } else if c == '9' {
        9
    } else {
        -1
    }
}

proof fn lemma_digit_value(d: int)
    requires
        0 <= d < 10,
    ensures
        digit_value(digit_chars()[d]) == d,
        48 <= digit_chars()[d] as u32 <= 57,
        digit_chars()[d] != '(' && digit_chars()[d] != ')' && digit_chars()[d] != ' ',
        digit_chars()[d] != 'x' && digit_chars()[d] != 'y' && digit_chars()[d] != '-',
{
}

proof fn lemma_digits_chars(n: nat)
    ensures
        nat_digits(n).len() >= 1,
        n >= 10 ==> nat_digits(n).len() >= 2,
        forall|k: int|
            0 <= k < nat_digits(n).len() ==> exists|d: int| 0 <= d < 10 && #[trigger] nat_digits(n)[k] == digit_chars()[d],
    decreases n,
{
    if n >= 10 {
        lemma_digits_chars(n / 10);
        assert forall|k: int| 0 <= k < nat_digits(n).len() implies exists|d: int|
            0 <= d < 10 && #[trigger] nat_digits(n)[k] == digit_chars()[d] by {
            if k < nat_digits(n / 10).len() {
                assert(nat_digits(n)[k] == nat_digits(n / 10)[k]);
            } else {
                assert(nat_digits(n)[k] == digit_chars()[(n % 10) as int]);
            }
        }
    } else {
        assert(nat_digits(n)[0] == digit_chars()[n as int]);
    }
}

proof fn lemma_digits_injective(a: nat, b: nat)
    requires
        nat_digits(a) == nat_digits(b),
    ensures
        a == b,
    decreases a,
{
    lemma_digits_chars(a);
    lemma_digits_chars(b);
    let da = nat_digits(a);
    if a < 10 && b < 10 {
        assert(da[0] == digit_chars()[a as int]);
        assert(nat_digits(b)[0] == digit_chars()[b as int]);
        lemma_digit_value(a as int);
        lemma_digit_value(b as int);
    } else if a >= 10 && b >= 10 {
        assert(da.last() == digit_chars()[(a % 10) as int]);
        assert(nat_digits(b).last() == digit_chars()[(b % 10) as int]);
        lemma_digit_value((a % 10) as int);
        lemma_digit_value((b % 10) as int);
        assert(nat_digits(a / 10) =~= da.drop_last());
        assert(nat_digits(b / 10) =~= nat_digits(b).drop_last());
        lemma_digits_injective(a / 10, b / 10);
    }
}

proof fn lemma_decimal_plain(i: int)
    ensures
        plain(decimal(i)),
        decimal(i).len() >= 1,
        decimal(i)[0] != '(',
        decimal(i)[0] != 'x' && decimal(i)[0] != 'y',
{
    let n = if i < 0 { (-i) as nat } else { i as nat };
    lemma_digits_chars(n);
    assert forall|k: int| 0 <= k < decimal(i).len() implies #[trigger] decimal(i)[k] != '(' && decimal(i)[k]
        != ')' && decimal(i)[k] != ' ' by {
        if i < 0 && k == 0 {
        } else {
            let j = if i < 0 { k - 1 } else { k };
            assert(decimal(i)[k] == nat_digits(n)[j]);
            let d = choose|d: int| 0 <= d < 10 && nat_digits(n)[j] == digit_chars()[d];
            lemma_digit_value(d);
        }
    }
    if i >= 0 {
        let d = choose|d: int| 0 <= d < 10 && nat_digits(n)[0] == digit_chars()[d];
        lemma_digit_value(d);
    }
}

proof fn lemma_decimal_injective(i: int, j: int)
    requires
        decimal(i) == decimal(j),
    ensures
        i == j,
{
    lemma_digits_chars(if i < 0 { (-i) as nat } else { i as nat });
    lemma_digits_chars(if j < 0 { (-j) as nat } else { j as nat });
    if i < 0 && j < 0 {
        assert(nat_digits((-i) as nat) =~= decimal(i).drop_first());
        assert(nat_digits((-j) as nat) =~= decimal(j).drop_first());
        lemma_digits_injective((-i) as nat, (-j) as nat);
    } else if i >= 0 && j >= 0 {
        lemma_digits_injective(i as nat, j as nat);
    } else if i < 0 {
        let d = choose|d: int| 0 <= d < 10 && nat_digits(j as nat)[0] == digit_chars()[d];
        lemma_digit_value(d);
    } else {
        let d = choose|d: int| 0 <= d < 10 && nat_digits(i as nat)[0] == digit_chars()[d];
        lemma_digit_value(d);
    }
}

/// An operand as printed: a leaf, or anything balanced in parentheses.
pub open spec fn operand(a: Seq<char>) -> bool {
    (plain(a) && a.len() >= 1 && a[0] != '(') || (a.len() >= 2 && a[0] == '(' && a.last() == ')'
        && balanced(a.subrange(1, a.len() - 1)))
}

/// Of two parenthesised operands that both start `s`, neither is a
/// proper prefix of the other.
proof fn lemma_paren_operand_len(short: Seq<char>, long: Seq<char>, s: Seq<char>)
    requires
        operand(short),
        operand(long),
        short[0] == '(',
        long[0] == '(',
        short.len() <= long.len(),
        long.len() <= s.len(),
        s.take(short.len() as int) == short,
        s.take(long.len() as int) == long,
    ensures
        short.len() == long.len(),
{
    if short.len() < long.len() {
        let ts = short.subrange(1, short.len() - 1);
        let tl = long.subrange(1, long.len() - 1);
        assert(short =~= seq!['('] + ts + seq![')']);
        assert(long =~= seq!['('] + tl + seq![')']);
        lemma_wrapped(ts, s.skip(short.len() as int));
        lemma_wrapped(tl, s.skip(long.len() as int));
        assert(seq!['('] + ts + seq![')'] + s.skip(short.len() as int) =~= s);
        assert(seq!['('] + tl + seq![')'] + s.skip(long.len() as int) =~= s);
        assert(depth(s.take(ts.len() + 2int)) == 0);
        assert(depth(s.take(short.len() as int)) >= 1);
    }
}

/// Of two leaf operands that both start `s` and are followed by a space,
/// neither is a proper prefix of the other.
proof fn lemma_plain_operand_len(short: Seq<char>, long: Seq<char>, s: Seq<char>)
    requires
        plain(long),
        short.len() <= long.len(),
        short.len() < s.len(),
        s[short.len() as int] == ' ',
        s.take(long.len() as int) == long,
        long.len() <= s.len(),
    ensures
        short.len() == long.len(),
{
    if short.len() < long.len() {
        assert(long[short.len() as int] == s.take(long.len() as int)[short.len() as int]);
    }
}

/// Two infix forms with single-character operators are equal only when
/// their operands and operators are.
proof fn lemma_infix_split(a1: Seq<char>, o1: char, b1: Seq<char>, a2: Seq<char>, o2: char, b2: Seq<char>)
    requires
        operand(a1),
        operand(a2),
        infix(a1, seq![o1], b1) == infix(a2, seq![o2], b2),
    ensures
        a1 == a2,
        o1 == o2,
        b1 == b2,
{
    let s = infix(a1, seq![o1], b1);
    let t1 = seq![' ', o1, ' '] + b1;
    let t2 = seq![' ', o2, ' '] + b2;
    assert(s =~= a1 + t1);
    assert(s =~= a2 + t2);
    assert(s.take(a1.len() as int) =~= a1);
    assert(s.take(a2.len() as int) =~= a2);
    assert(s[a1.len() as int] == ' ');
    assert(s[a2.len() as int] == ' ');
    assert(s[0] == a1[0]);
    assert(s[0] == a2[0]);
    if s[0] == '(' {
        if a1.len() <= a2.len() {
            lemma_paren_operand_len(a1, a2, s);
        } else {
            lemma_paren_operand_len(a2, a1, s);
        }
    } else {
        if a1.len() <= a2.len() {
            lemma_plain_operand_len(a1, a2, s);
        } else {
            lemma_plain_operand_len(a2, a1, s);
        }
    }
    assert(t1 =~= s.skip(a1.len() as int));
    assert(t2 =~= s.skip(a2.len() as int));
    assert(t1[1] == o1);
    assert(t2[1] == o2);
    assert(b1 =~= t1.skip(3));
    assert(b2 =~= t2.skip(3));
}

/// An infix form of two operands is balanced, has a space, and is an
/// operand in parentheses.
proof fn lemma_infix_shape(l: Seq<char>, l_leaf: bool, o: char, r: Seq<char>, r_leaf: bool)
    requires
        balanced(l),
        balanced(r),
        operand(parens_unless(l_leaf, l)),
        operand(parens_unless(r_leaf, r)),
        o != '(' && o != ')',
    ensures
        balanced(infix(parens_unless(l_leaf, l), seq![o], parens_unless(r_leaf, r))),
        !plain(infix(parens_unless(l_leaf, l), seq![o], parens_unless(r_leaf, r))),
        operand(
            parens_unless(false, infix(parens_unless(l_leaf, l), seq![o], parens_unless(r_leaf, r))),
        ),
{
    let a = parens_unless(l_leaf, l);
    let b = parens_unless(r_leaf, r);
    let op = seq![' ', o, ' '];
    let s = infix(a, seq![o], b);
    assert(s =~= a + op + b);
    lemma_wrapped(l, Seq::empty());
    lemma_wrapped(r, Seq::empty());
    assert(seq!['('] + l + seq![')'] + Seq::<char>::empty() =~= seq!['('] + l + seq![')']);
    assert(seq!['('] + r + seq![')'] + Seq::<char>::empty() =~= seq!['('] + r + seq![')']);
    assert(balanced(a));
    assert(balanced(b));
    assert(no_parens(op));
    lemma_plain_balanced(op);
    lemma_balanced_concat(a, op);
    lemma_balanced_concat(a + op, b);
    assert(s[a.len() as int] == ' ');
    let w = seq!['('] + s + seq![')'];
    assert(w.subrange(1, w.len() - 1) =~= s);
}

impl VarExpr {
    /// The printed form is balanced, and an operand when parenthesised as
    /// a child.
    proof fn lemma_printed_shape(self)
        ensures
            balanced(self.printed()),
            operand(parens_unless(self.leaf(), self.printed())),
            self.leaf() ==> plain(self.printed()),
            !self.leaf() ==> !plain(self.printed()),
        decreases self,
    {
        match self {
            VarExpr::Var(v) => {
                assert(plain(self.printed()));
                lemma_plain_balanced(self.printed());
            },
            VarExpr::Const(c) => {
                lemma_decimal_plain(c as int);
                lemma_plain_balanced(self.printed());
            },
            VarExpr::Add(l, r) => {
                l.lemma_printed_shape();
                r.lemma_printed_shape();
                lemma_infix_shape(l.printed(), l.leaf(), '+', r.printed(), r.leaf());
            },
            VarExpr::Sub(l, r) => {
                l.lemma_printed_shape();
                r.lemma_printed_shape();
                lemma_infix_shape(l.printed(), l.leaf(), '-', r.printed(), r.leaf());
            },
            VarExpr::Mul(l, r) => {
                l.lemma_printed_shape();
                r.lemma_printed_shape();
                lemma_infix_shape(l.printed(), l.leaf(), '*', r.printed(), r.leaf());
            },
        }
    }

    /// Distinct coordinate expressions print differently.
    pub proof fn lemma_printed_injective(self, other: VarExpr)
        requires
            self.printed() == other.printed(),
        ensures
            self == other,
        decreases self,
    {
        self.lemma_printed_shape();
        other.lemma_printed_shape();
        match (self, other) {
            (VarExpr::Var(a), VarExpr::Var(b)) => {
                assert(self.printed()[0] == other.printed()[0]);
            },
            (VarExpr::Const(a), VarExpr::Const(b)) => {
                lemma_decimal_injective(a as int, b as int);
            },
            (VarExpr::Var(a), VarExpr::Const(b)) => {
                lemma_decimal_plain(b as int);
                assert(self.printed()[0] == other.printed()[0]);
            },
            (VarExpr::Const(a), VarExpr::Var(b)) => {
                lemma_decimal_plain(a as int);
                assert(self.printed()[0] == other.printed()[0]);
            },
            _ => {
                if self.leaf() || other.leaf() {
                } else {
                    let (l1, r1, o1) = match self {
                        VarExpr::Add(l, r) => (*l, *r, '+'),
                        VarExpr::Sub(l, r) => (*l, *r, '-'),
                        VarExpr::Mul(l, r) => (*l, *r, '*'),
                        _ => arbitrary(),
                    };
                    let (l2, r2, o2) = match other {
                        VarExpr::Add(l, r) => (*l, *r, '+'),
                        VarExpr::Sub(l, r) => (*l, *r, '-'),
                        VarExpr::Mul(l, r) => (*l, *r, '*'),
                        _ => arbitrary(),
                    };
                    l1.lemma_printed_shape();
                    l2.lemma_printed_shape();
                    r1.lemma_printed_shape();
                    r2.lemma_printed_shape();
                    let a1 = parens_unless(l1.leaf(), l1.printed());
                    let a2 = parens_unless(l2.leaf(), l2.printed());
                    let b1 = parens_unless(r1.leaf(), r1.printed());
                    let b2 = parens_unless(r2.leaf(), r2.printed());
                    lemma_infix_split(a1, o1, b1, a2, o2, b2);
                    Self::lemma_operand_injective(l1, l2);
                    Self::lemma_operand_injective(r1, r2);
                    l1.lemma_printed_injective(l2);
                    r1.lemma_printed_injective(r2);
                }
            },
        }
    }

    /// Equal operands come from equal printed forms.
    proof fn lemma_operand_injective(a: VarExpr, b: VarExpr)
        requires
            parens_unless(a.leaf(), a.printed()) == parens_unless(b.leaf(), b.printed()),
        ensures
            a.printed() == b.printed(),
    {
        a.lemma_printed_shape();
        b.lemma_printed_shape();
        let pa = parens_unless(a.leaf(), a.printed());
        if a.leaf() && !b.leaf() {
            assert(pa[0] == '(');
        } else if !a.leaf() && b.leaf() {
            assert(pa[0] == '(');
        } else if !a.leaf() {
            assert(a.printed() =~= pa.subrange(1, pa.len() - 1));
            assert(b.printed() =~= pa.subrange(1, pa.len() - 1));
        }
    }
}

/// `c` may start a name: a letter or `_`.
pub open spec fn ident_start(c: char) -> bool {
    let u = c as u32;
    (97 <= u <= 122) || (65 <= u <= 90) || u == 95
}

/// `c` may appear in a name: a letter, a digit or `_`.
pub open spec fn ident_char(c: char) -> bool {
    ident_start(c) || (48 <= c as u32 <= 57)
}

/// `s` is a name: a letter or `_`, then letters, digits and `_`.
pub open spec fn is_ident(s: Seq<char>) -> bool {
    &&& s.len() >= 1
    &&& ident_start(s[0])
    &&& forall|k: int| 0 <= k < s.len() ==> ident_char(#[trigger] s[k])
}

/// `s` starts like a number: a digit or `-`.
pub open spec fn starts_num(s: Seq<char>) -> bool {
    s.len() >= 1 && (s[0] == '-' || (48 <= s[0] as u32 <= 57))
}

/// Every `c` in `a` lies inside parentheses.
pub open spec fn top_free(a: Seq<char>, c: char) -> bool {
    forall|j: int| 0 <= j < a.len() && #[trigger] a[j] == c ==> depth(a.take(j)) >= 1
}

/// `a` holds no `c`.
pub open spec fn lacks(a: Seq<char>, c: char) -> bool {
    forall|j: int| 0 <= j < a.len() ==> #[trigger] a[j] != c
}

proof fn lemma_ident_chars(s: Seq<char>)
    requires
        is_ident(s),
    ensures
        no_parens(s),
        lacks(s, ' '),
        lacks(s, '}'),
        lacks(s, ','),
        lacks(s, '('),
        !starts_num(s),
{
    assert('(' as u32 == 40 && ')' as u32 == 41 && ' ' as u32 == 32 && '}' as u32 == 125 && ',' as u32 == 44
        && '-' as u32 == 45);
}

/// Of two balanced strings that both start `s`, each followed there by a
/// `c` that none of them holds outside parentheses, neither is longer.
proof fn lemma_first_top(a1: Seq<char>, t1: Seq<char>, a2: Seq<char>, t2: Seq<char>, c: char)
    requires
        a1 + t1 == a2 + t2,
        t1.len() > 0,
        t2.len() > 0,
        t1[0] == c,
        t2[0] == c,
        balanced(a1),
        balanced(a2),
        top_free(a1, c),
        top_free(a2, c),
    ensures
        a1 == a2,
        t1 == t2,
{
    let s = a1 + t1;
    assert(s =~= a2 + t2);
    if a1.len() < a2.len() {
        assert(a2[a1.len() as int] == s[a1.len() as int]);
        assert forall|k: int| 0 <= k < a1.len() implies a2.take(a1.len() as int)[k] == a1[k] by {
            assert(s[k] == a1[k]);
            assert(s[k] == a2[k]);
        }
        assert(a2.take(a1.len() as int) =~= a1);
    } else if a2.len() < a1.len() {
        assert(a1[a2.len() as int] == s[a2.len() as int]);
        assert forall|k: int| 0 <= k < a2.len() implies a1.take(a2.len() as int)[k] == a2[k] by {
            assert(s[k] == a1[k]);
            assert(s[k] == a2[k]);
        }
        assert(a1.take(a2.len() as int) =~= a2);
    }
    assert(a1 =~= s.take(a1.len() as int));
    assert(a2 =~= s.take(a2.len() as int));
    assert(t1 =~= s.skip(a1.len() as int));
    assert(t2 =~= s.skip(a2.len() as int));
}

proof fn lemma_lacks_top_free(a: Seq<char>, c: char)
    requires
        lacks(a, c),
    ensures
        top_free(a, c),
{
}

/// `prefix` followed by a balanced `t` in parentheses is balanced, and
/// holds `c` only inside the parentheses.
proof fn lemma_call_shape(prefix: Seq<char>, t: Seq<char>, c: char)
    requires
        no_parens(prefix),
        lacks(prefix, c),
        balanced(t),
        c != '(',
    ensures
        balanced(prefix + (seq!['('] + t + seq![')'])),
        top_free(prefix + (seq!['('] + t + seq![')']), c),
{
    let w = seq!['('] + t + seq![')'];
    let s = prefix + w;
    lemma_wrapped(t, Seq::empty());
    assert(w + Seq::<char>::empty() =~= w);
    lemma_plain_balanced(prefix);
    lemma_balanced_concat(prefix, w);
    lemma_plain_depth(prefix);
    assert forall|j: int| 0 <= j < s.len() && #[trigger] s[j] == c implies depth(s.take(j)) >= 1 by {
        if j < prefix.len() {
            assert(s[j] == prefix[j]);
        } else if j == prefix.len() {
            assert(s[j] == '(');
        } else {
            assert(s.take(j) =~= prefix + w.take(j - prefix.len()));
            lemma_depth_concat(prefix, w.take(j - prefix.len()));
            assert(w.take(j - prefix.len()) =~= (w + Seq::<char>::empty()).take(j - prefix.len()));
        }
    }
}

/// What a printed child looks like: balanced, with no space and no `}`
/// outside parentheses, and either a number, or in parentheses, or holding
/// a parenthesis.
pub open spec fn operand_ok(a: Seq<char>) -> bool {
    &&& balanced(a)
    &&& a.len() >= 1
    &&& top_free(a, ' ')
    &&& top_free(a, '}')
    &&& (starts_num(a) || a[0] == '(' || !no_parens(a))
}

/// `a` in parentheses is a fine operand.
proof fn lemma_parens_operand(a: Seq<char>)
    requires
        balanced(a),
    ensures
        operand_ok(seq!['('] + a + seq![')']),
{
    lemma_call_shape(Seq::empty(), a, ' ');
    lemma_call_shape(Seq::empty(), a, '}');
    assert(Seq::<char>::empty() + (seq!['('] + a + seq![')']) =~= seq!['('] + a + seq![')']);
}

proof fn lemma_lacks_concat(a: Seq<char>, b: Seq<char>, c: char)
    requires
        lacks(a, c),
        lacks(b, c),
    ensures
        lacks(a + b, c),
{
    assert forall|j: int| 0 <= j < (a + b).len() implies #[trigger] (a + b)[j] != c by {
        if j < a.len() {
            assert((a + b)[j] == a[j]);
        } else {
            assert((a + b)[j] == b[j - a.len()]);
        }
    }
}

proof fn lemma_lacks_infix(l: Seq<char>, l_leaf: bool, o: char, r: Seq<char>, r_leaf: bool, c: char)
    requires
        lacks(l, c),
        lacks(r, c),
        c != '(' && c != ')' && c != ' ' && c != o,
    ensures
        lacks(infix(parens_unless(l_leaf, l), seq![o], parens_unless(r_leaf, r)), c),
{
    let (po, pc) = (seq!['('], seq![')']);
    lemma_lacks_concat(po, l, c);
    lemma_lacks_concat(po + l, pc, c);
    lemma_lacks_concat(po, r, c);
    lemma_lacks_concat(po + r, pc, c);
    let a = parens_unless(l_leaf, l);
    let b = parens_unless(r_leaf, r);
    lemma_lacks_concat(a, seq![' '], c);
    lemma_lacks_concat(a + seq![' '], seq![o], c);
    lemma_lacks_concat(a + seq![' '] + seq![o], seq![' '], c);
    lemma_lacks_concat(a + seq![' '] + seq![o] + seq![' '], b, c);
}

proof fn lemma_var_expr_chars(e: VarExpr)
    ensures
        lacks(e.printed(), ','),
        lacks(e.printed(), '}'),
    decreases e,
{
    match e {
        VarExpr::Var(_) => {},
        VarExpr::Const(c) => {
            lemma_decimal_chars(c as int);
        },
        VarExpr::Add(l, r) => {
            lemma_var_expr_chars(*l);
            lemma_var_expr_chars(*r);
            lemma_lacks_infix(l.printed(), l.leaf(), '+', r.printed(), r.leaf(), ',');
            lemma_lacks_infix(l.printed(), l.leaf(), '+', r.printed(), r.leaf(), '}');
        },
        VarExpr::Sub(l, r) => {
            lemma_var_expr_chars(*l);
            lemma_var_expr_chars(*r);
            lemma_lacks_infix(l.printed(), l.leaf(), '-', r.printed(), r.leaf(), ',');
            lemma_lacks_infix(l.printed(), l.leaf(), '-', r.printed(), r.leaf(), '}');
        },
        VarExpr::Mul(l, r) => {
            lemma_var_expr_chars(*l);
            lemma_var_expr_chars(*r);
            lemma_lacks_infix(l.printed(), l.leaf(), '*', r.printed(), r.leaf(), ',');
            lemma_lacks_infix(l.printed(), l.leaf(), '*', r.printed(), r.leaf(), '}');
        },
    }
}

proof fn lemma_decimal_chars(i: int)
    ensures
        lacks(decimal(i), ','),
        lacks(decimal(i), '}'),
        starts_num(decimal(i)),
{
    let n = if i < 0 { (-i) as nat } else { i as nat };
    lemma_digits_chars(n);
    assert('}' as u32 == 125 && ',' as u32 == 44);
    assert forall|k: int| 0 <= k < decimal(i).len() implies #[trigger] decimal(i)[k] != ',' && decimal(i)[k]
        != '}' by {
        if !(i < 0 && k == 0) {
            let j = if i < 0 { k - 1 } else { k };
            assert(decimal(i)[k] == nat_digits(n)[j]);
            let d = choose|d: int| 0 <= d < 10 && nat_digits(n)[j] == digit_chars()[d];
            lemma_digit_value(d);
        }
    }
    if i >= 0 {
        let d = choose|d: int| 0 <= d < 10 && nat_digits(n)[0] == digit_chars()[d];
        lemma_digit_value(d);
    }
}

impl Definition {
    /// Every parameter and every stage read is named by a name.
    pub open spec fn names_ok(self) -> bool
        decreases self,
    {
        match self {
            Definition::Access(a) => is_ident(a.source@),
            Definition::Const(_) => true,
            Definition::Param(p) => is_ident(p@),
            Definition::Cond(c) => c.lhs.names_ok() && c.rhs.names_ok() && c.if_true.names_ok()
                && c.if_false.names_ok(),
            Definition::Add(l, r) => l.names_ok() && r.names_ok(),
            Definition::Sub(l, r) => l.names_ok() && r.names_ok(),
            Definition::Mul(l, r) => l.names_ok() && r.names_ok(),
            Definition::Div(l, r) => l.names_ok() && r.names_ok(),
        }
    }

    /// The two trees have the same shape, constants, operators and names.
    pub open spec fn same_tree(self, o: Definition) -> bool
        decreases self,
    {
        match (self, o) {
            (Definition::Access(a), Definition::Access(b)) => a.source@ == b.source@ && a.x == b.x && a.y
                == b.y,
            (Definition::Const(a), Definition::Const(b)) => a == b,
            (Definition::Param(a), Definition::Param(b)) => a@ == b@,
            (Definition::Cond(a), Definition::Cond(b)) => a.cmp == b.cmp && a.lhs.same_tree(*b.lhs)
                && a.rhs.same_tree(*b.rhs) && a.if_true.same_tree(*b.if_true) && a.if_false.same_tree(
                *b.if_false,
            ),
            (Definition::Add(l1, r1), Definition::Add(l2, r2)) => l1.same_tree(*l2) && r1.same_tree(*r2),
            (Definition::Sub(l1, r1), Definition::Sub(l2, r2)) => l1.same_tree(*l2) && r1.same_tree(*r2),
            (Definition::Mul(l1, r1), Definition::Mul(l2, r2)) => l1.same_tree(*l2) && r1.same_tree(*r2),
            (Definition::Div(l1, r1), Definition::Div(l2, r2)) => l1.same_tree(*l2) && r1.same_tree(*r2),
            _ => false,
        }
    }

    spec fn kind(self) -> int {
        match self {
            Definition::Const(_) => 0,
            Definition::Param(_) => 1,
            Definition::Access(_) => 2,
            Definition::Cond(_) => 3,
            _ => 4,
        }
    }
}

/// `s` has a space outside all parentheses.
spec fn top_spaced(s: Seq<char>) -> bool {
    exists|j: int| 0 <= j < s.len() && s[j] == ' ' && depth(#[trigger] s.take(j)) == 0
}

proof fn lemma_balanced_chain(parts: Seq<Seq<char>>)
    requires
        forall|i: int| 0 <= i < parts.len() ==> balanced(#[trigger] parts[i]),
    ensures
        balanced(parts.fold_left(Seq::<char>::empty(), |acc: Seq<char>, p: Seq<char>| acc + p)),
    decreases parts.len(),
{
    let f = |acc: Seq<char>, p: Seq<char>| acc + p;
    if parts.len() == 0 {
        lemma_plain_balanced(Seq::<char>::empty());
    } else {
        lemma_balanced_chain(parts.drop_last());
        lemma_balanced_concat(parts.drop_last().fold_left(Seq::<char>::empty(), f), parts.last());
    }
}

proof fn lemma_no_parens_balanced(s: Seq<char>)
    requires
        no_parens(s),
    ensures
        balanced(s),
{
    lemma_plain_balanced(s);
}

/// An infix form of balanced operands is balanced.
proof fn lemma_infix_balanced(a: Seq<char>, o: char, b: Seq<char>)
    requires
        balanced(a),
        balanced(b),
        o != '(' && o != ')',
    ensures
        balanced(infix(a, seq![o], b)),
        infix(a, seq![o], b) == a + seq![' ', o, ' '] + b,
{
    let op = seq![' ', o, ' '];
    assert(infix(a, seq![o], b) =~= a + op + b);
    assert(no_parens(op));
    lemma_plain_balanced(op);
    lemma_balanced_concat(a, op);
    lemma_balanced_concat(a + op, b);
}

proof fn lemma_cmp_printed(c: Comparison)
    ensures
        no_parens(c.printed()),
        lacks(c.printed(), ' '),
        c.printed().len() >= 1,
{
}

proof fn lemma_cmp_injective(a: Comparison, b: Comparison)
    requires
        a.printed() == b.printed(),
    ensures
        a == b,
{
    let (pa, pb) = (a.printed(), b.printed());
    assert(pa.len() == pb.len());
    assert(pa[0] == pb[0]);
    if pa.len() == 2 {
        assert(pa[1] == pb[1]);
    }
    match a {
        Comparison::EQ => {
            assert(pa[0] == '=');
        },
        Comparison::GT => {
            assert(pa[0] == '>' && pa.len() == 1);
        },
        Comparison::GTE => {
            assert(pa[0] == '>' && pa.len() == 2);
        },
        Comparison::LT => {
            assert(pa[0] == '<' && pa.len() == 1);
        },
        Comparison::LTE => {
            assert(pa[0] == '<' && pa.len() == 2);
        },
    }
}

/// The pieces of a printed condition, one after another.
spec fn cond_parts(c: Condition) -> Seq<Seq<char>> {
    seq![
        seq!['i', 'f', ' '],
        parens_unless(c.lhs.leaf(), c.lhs.printed()),
        seq![' '],
        c.cmp.printed(),
        seq![' '],
        parens_unless(c.rhs.leaf(), c.rhs.printed()),
        seq![' ', '{'],
        parens_unless(c.if_true.leaf(), c.if_true.printed()),
        seq!['}', ' ', 'e', 'l', 's', 'e', ' ', '{'],
        parens_unless(c.if_false.leaf(), c.if_false.printed()),
        seq!['}'],
    ]
}

proof fn lemma_access_shape(a: Access)
    requires
        is_ident(a.source@),
    ensures
        balanced(a.printed()),
        operand_ok(a.printed()),
        a.printed()[0] != '(',
        top_free(a.printed(), ' '),
        !no_parens(a.printed()),
{
    lemma_ident_chars(a.source@);
    a.x.lemma_printed_shape();
    a.y.lemma_printed_shape();
    let comma = seq![',', ' '];
    assert(no_parens(comma));
    lemma_plain_balanced(comma);
    lemma_balanced_concat(a.x.printed(), comma);
    lemma_balanced_concat(a.x.printed() + comma, a.y.printed());
    let t = a.x.printed() + comma + a.y.printed();
    lemma_call_shape(a.source@, t, ' ');
    lemma_call_shape(a.source@, t, '}');
    assert(a.printed() =~= a.source@ + (seq!['('] + t + seq![')']));
    assert(a.printed()[a.source@.len() as int] == '(');
    assert(a.printed()[0] == a.source@[0]);
}

proof fn lemma_cond_shape(c: Condition)
    requires
        balanced(c.lhs.printed()),
        balanced(c.rhs.printed()),
        balanced(c.if_true.printed()),
        balanced(c.if_false.printed()),
        balanced(parens_unless(c.lhs.leaf(), c.lhs.printed())),
        balanced(parens_unless(c.rhs.leaf(), c.rhs.printed())),
        balanced(parens_unless(c.if_true.leaf(), c.if_true.printed())),
        balanced(parens_unless(c.if_false.leaf(), c.if_false.printed())),
    ensures
        balanced(Definition::Cond(c).printed()),
{
    lemma_cmp_printed(c.cmp);
    let parts = cond_parts(c);
    assert forall|i: int| 0 <= i < parts.len() implies balanced(#[trigger] parts[i]) by {
        if i == 0 || i == 2 || i == 3 || i == 4 || i == 6 || i == 8 || i == 10 {
            lemma_no_parens_balanced(parts[i]);
        }
    }
    lemma_balanced_chain(parts);
    let f = |acc: Seq<char>, p: Seq<char>| acc + p;
    assert(parts.fold_left(Seq::<char>::empty(), f) =~= Definition::Cond(c).printed()) by {
        reveal_with_fuel(Seq::fold_left, 12);
    }
}

impl Definition {
    /// The printed form is balanced, and a fine operand as a child.
    proof fn lemma_def_shape(self)
        requires
            self.names_ok(),
        ensures
            balanced(self.printed()),
            operand_ok(parens_unless(self.leaf(), self.printed())),
            self.printed().len() >= 1,
            self.leaf() ==> self.printed()[0] != '(',
            self.kind() <= 2 ==> top_free(self.printed(), ' '),
            self.kind() == 0 ==> no_parens(self.printed()) && starts_num(self.printed()),
            self.kind() == 1 ==> no_parens(self.printed()) && !starts_num(self.printed()),
            self.kind() == 2 ==> !no_parens(self.printed()),
        decreases self,
    {
        match self {
            Definition::Access(a) => {
                lemma_access_shape(a);
            },
            Definition::Const(c) => {
                lemma_decimal_plain(c as int);
                lemma_decimal_chars(c as int);
                lemma_plain_balanced(decimal(c as int));
            },
            Definition::Param(p) => {
                lemma_ident_chars(p@);
                lemma_plain_balanced(p@);
                lemma_parens_operand(p@);
            },
            Definition::Cond(c) => {
                c.lhs.lemma_def_shape();
                c.rhs.lemma_def_shape();
                c.if_true.lemma_def_shape();
                c.if_false.lemma_def_shape();
                lemma_cond_shape(c);
                lemma_parens_operand(self.printed());
            },
            Definition::Add(l, r) => {
                l.lemma_def_shape();
                r.lemma_def_shape();
                lemma_infix_balanced(parens_unless(l.leaf(), l.printed()), '+', parens_unless(r.leaf(), r.printed()));
                lemma_parens_operand(self.printed());
            },
            Definition::Sub(l, r) => {
                l.lemma_def_shape();
                r.lemma_def_shape();
                lemma_infix_balanced(parens_unless(l.leaf(), l.printed()), '-', parens_unless(r.leaf(), r.printed()));
                lemma_parens_operand(self.printed());
            },
            Definition::Mul(l, r) => {
                l.lemma_def_shape();
                r.lemma_def_shape();
                lemma_infix_balanced(parens_unless(l.leaf(), l.printed()), '*', parens_unless(r.leaf(), r.printed()));
                lemma_parens_operand(self.printed());
            },
            Definition::Div(l, r) => {
                l.lemma_def_shape();
                r.lemma_def_shape();
                lemma_infix_balanced(parens_unless(l.leaf(), l.printed()), '/', parens_unless(r.leaf(), r.printed()));
                lemma_parens_operand(self.printed());
            },
        }
    }
}

/// The operands and operator of a binary definition.
spec fn bin_parts(d: Definition) -> (Definition, Definition, char) {
    match d {
        Definition::Add(l, r) => (*l, *r, '+'),
        Definition::Sub(l, r) => (*l, *r, '-'),
        Definition::Mul(l, r) => (*l, *r, '*'),
        Definition::Div(l, r) => (*l, *r, '/'),
        _ => arbitrary(),
    }
}

proof fn lemma_bin_printed(d: Definition)
    requires
        d.kind() == 4,
    ensures
        d.printed() == infix(
            parens_unless(bin_parts(d).0.leaf(), bin_parts(d).0.printed()),
            seq![bin_parts(d).2],
            parens_unless(bin_parts(d).1.leaf(), bin_parts(d).1.printed()),
        ),
{
}

/// A definition printed as a child is a fine operand.
proof fn lemma_operand_ok(d: Definition)
    requires
        d.names_ok(),
    ensures
        operand_ok(parens_unless(d.leaf(), d.printed())),
{
    d.lemma_def_shape();
}

/// Equal operands come from equal printed forms.
proof fn lemma_def_operand_injective(a: Definition, b: Definition)
    requires
        a.names_ok(),
        b.names_ok(),
        parens_unless(a.leaf(), a.printed()) == parens_unless(b.leaf(), b.printed()),
    ensures
        a.printed() == b.printed(),
{
    a.lemma_def_shape();
    b.lemma_def_shape();
    let pa = parens_unless(a.leaf(), a.printed());
    if a.leaf() && !b.leaf() {
        assert(pa[0] == '(');
    } else if !a.leaf() && b.leaf() {
        assert(pa[0] == '(');
    } else if !a.leaf() {
        assert(a.printed() =~= pa.subrange(1, pa.len() - 1));
        assert(b.printed() =~= pa.subrange(1, pa.len() - 1));
    }
}

/// A space outside parentheses in a printed condition or binary form.
proof fn lemma_top_spaced(d: Definition)
    requires
        d.names_ok(),
        d.kind() >= 3,
    ensures
        top_spaced(d.printed()),
        d.kind() == 3 ==> d.printed().len() >= 3 && d.printed()[0] == 'i' && d.printed()[1] == 'f'
            && d.printed()[2] == ' ',
{
    let s = d.printed();
    if d.kind() == 3 {
        let c = match d {
            Definition::Cond(c) => c,
            _ => arbitrary(),
        };
        assert(s.take(2) =~= seq!['i', 'f']);
        assert(no_parens(s.take(2)));
        lemma_plain_depth(s.take(2));
        assert(s[2] == ' ');
    } else {
        lemma_bin_printed(d);
        let (l, r, o) = bin_parts(d);
        l.lemma_def_shape();
        let a = parens_unless(l.leaf(), l.printed());
        assert(s.take(a.len() as int) =~= a);
        assert(s[a.len() as int] == ' ');
    }
}

/// A printed form without a space outside parentheses is not a printed
/// condition or binary form.
proof fn lemma_kind_low_high(lo: Definition, hi: Definition)
    requires
        lo.names_ok(),
        hi.names_ok(),
        lo.kind() <= 2,
        hi.kind() >= 3,
    ensures
        lo.printed() != hi.printed(),
{
    lo.lemma_def_shape();
    lemma_top_spaced(hi);
    if lo.printed() == hi.printed() {
        let s = lo.printed();
        let j = choose|j: int| 0 <= j < s.len() && s[j] == ' ' && depth(#[trigger] s.take(j)) == 0;
    }
}

/// A printed condition is not a printed binary form.
#[verifier::rlimit(100)]
proof fn lemma_kind_cond_bin(c: Definition, b: Definition)
    requires
        c.names_ok(),
        b.names_ok(),
        c.kind() == 3,
        b.kind() == 4,
    ensures
        c.printed() != b.printed(),
{
    lemma_top_spaced(c);
    if c.printed() == b.printed() {
        let s = c.printed();
        lemma_bin_printed(b);
        let (l, r, o) = bin_parts(b);
        lemma_operand_ok(l);
        let a = parens_unless(l.leaf(), l.printed());
        assert(s.take(a.len() as int) =~= a);
        assert(s[a.len() as int] == ' ');
        if a.len() > 2 {
            assert(a[2] == ' ');
            assert(a.take(2) =~= s.take(2));
            assert(s.take(2) =~= seq!['i', 'f']);
            assert(no_parens(s.take(2)));
            lemma_plain_depth(s.take(2));
        }
        assert(a.len() == 2);
        assert(a =~= seq!['i', 'f']);
        assert(no_parens(a));
        assert('i' as u32 == 105);
    }
}

/// Equal printed forms come from definitions of one kind.
proof fn lemma_kind_eq(d1: Definition, d2: Definition)
    requires
        d1.names_ok(),
        d2.names_ok(),
        d1.printed() == d2.printed(),
    ensures
        d1.kind() == d2.kind(),
{
    let (k1, k2) = (d1.kind(), d2.kind());
    if k1 <= 2 && k2 >= 3 {
        lemma_kind_low_high(d1, d2);
    } else if k2 <= 2 && k1 >= 3 {
        lemma_kind_low_high(d2, d1);
    } else if k1 == 3 && k2 == 4 {
        lemma_kind_cond_bin(d1, d2);
    } else if k1 == 4 && k2 == 3 {
        lemma_kind_cond_bin(d2, d1);
    } else if k1 <= 2 && k2 <= 2 {
        d1.lemma_def_shape();
        d2.lemma_def_shape();
    }
}

/// The pieces of a printed condition after its leading `if `, nested to
/// the right.
spec fn cond_tail(c: Condition) -> Seq<char> {
    parens_unless(c.lhs.leaf(), c.lhs.printed()) + (seq![' '] + (c.cmp.printed() + (seq![' '] + (
    parens_unless(c.rhs.leaf(), c.rhs.printed()) + (seq![' ', '{'] + (parens_unless(
        c.if_true.leaf(),
        c.if_true.printed(),
    ) + (seq!['}', ' ', 'e', 'l', 's', 'e', ' ', '{'] + (parens_unless(
        c.if_false.leaf(),
        c.if_false.printed(),
    ) + seq!['}']))))))))
}

#[verifier::rlimit(80)]
proof fn lemma_cond_split(c1: Condition, c2: Condition)
    requires
        cond_tail(c1) == cond_tail(c2),
        operand_ok(parens_unless(c1.lhs.leaf(), c1.lhs.printed())),
        operand_ok(parens_unless(c2.lhs.leaf(), c2.lhs.printed())),
        operand_ok(parens_unless(c1.rhs.leaf(), c1.rhs.printed())),
        operand_ok(parens_unless(c2.rhs.leaf(), c2.rhs.printed())),
        operand_ok(parens_unless(c1.if_true.leaf(), c1.if_true.printed())),
        operand_ok(parens_unless(c2.if_true.leaf(), c2.if_true.printed())),
    ensures
        parens_unless(c1.lhs.leaf(), c1.lhs.printed()) == parens_unless(c2.lhs.leaf(), c2.lhs.printed()),
        c1.cmp == c2.cmp,
        parens_unless(c1.rhs.leaf(), c1.rhs.printed()) == parens_unless(c2.rhs.leaf(), c2.rhs.printed()),
        parens_unless(c1.if_true.leaf(), c1.if_true.printed()) == parens_unless(
            c2.if_true.leaf(),
            c2.if_true.printed(),
        ),
        parens_unless(c1.if_false.leaf(), c1.if_false.printed()) == parens_unless(
            c2.if_false.leaf(),
            c2.if_false.printed(),
        ),
{
    let (a1, a2) = (parens_unless(c1.lhs.leaf(), c1.lhs.printed()), parens_unless(c2.lhs.leaf(), c2.lhs.printed()));
    let (b1, b2) = (parens_unless(c1.rhs.leaf(), c1.rhs.printed()), parens_unless(c2.rhs.leaf(), c2.rhs.printed()));
    let (t1, t2) = (
        parens_unless(c1.if_true.leaf(), c1.if_true.printed()),
        parens_unless(c2.if_true.leaf(), c2.if_true.printed()),
    );
    let (f1, f2) = (
        parens_unless(c1.if_false.leaf(), c1.if_false.printed()),
        parens_unless(c2.if_false.leaf(), c2.if_false.printed()),
    );
    let else_part = seq!['}', ' ', 'e', 'l', 's', 'e', ' ', '{'];
    let r4_1 = else_part + (f1 + seq!['}']);
    let r4_2 = else_part + (f2 + seq!['}']);
    let r3_1 = seq![' ', '{'] + (t1 + r4_1);
    let r3_2 = seq![' ', '{'] + (t2 + r4_2);
    let r2_1 = seq![' '] + (b1 + r3_1);
    let r2_2 = seq![' '] + (b2 + r3_2);
    let r1_1 = seq![' '] + (c1.cmp.printed() + r2_1);
    let r1_2 = seq![' '] + (c2.cmp.printed() + r2_2);
    lemma_first_top(a1, r1_1, a2, r1_2, ' ');
    lemma_cmp_printed(c1.cmp);
    lemma_cmp_printed(c2.cmp);
    lemma_no_parens_balanced(c1.cmp.printed());
    lemma_no_parens_balanced(c2.cmp.printed());
    assert(r1_1.skip(1) =~= c1.cmp.printed() + r2_1);
    assert(r1_2.skip(1) =~= c2.cmp.printed() + r2_2);
    lemma_first_top(c1.cmp.printed(), r2_1, c2.cmp.printed(), r2_2, ' ');
    lemma_cmp_injective(c1.cmp, c2.cmp);
    assert(r2_1.skip(1) =~= b1 + r3_1);
    assert(r2_2.skip(1) =~= b2 + r3_2);
    lemma_first_top(b1, r3_1, b2, r3_2, ' ');
    assert(r3_1.skip(2) =~= t1 + r4_1);
    assert(r3_2.skip(2) =~= t2 + r4_2);
    lemma_first_top(t1, r4_1, t2, r4_2, '}');
    assert(r4_1.skip(8) =~= f1 + seq!['}']);
    assert(r4_2.skip(8) =~= f2 + seq!['}']);
    assert(f1 =~= (f1 + seq!['}']).drop_last());
    assert(f2 =~= (f2 + seq!['}']).drop_last());
}

proof fn lemma_access_split(a1: Access, a2: Access)
    requires
        is_ident(a1.source@),
        is_ident(a2.source@),
        a1.printed() == a2.printed(),
    ensures
        a1.source@ == a2.source@,
        a1.x == a2.x,
        a1.y == a2.y,
{
    lemma_ident_chars(a1.source@);
    lemma_ident_chars(a2.source@);
    lemma_plain_balanced(a1.source@);
    lemma_plain_balanced(a2.source@);
    let (x1, y1, x2, y2) = (a1.x.printed(), a1.y.printed(), a2.x.printed(), a2.y.printed());
    let tail1 = seq![',', ' '] + (y1 + seq![')']);
    let tail2 = seq![',', ' '] + (y2 + seq![')']);
    let rest1 = seq!['('] + (x1 + tail1);
    let rest2 = seq!['('] + (x2 + tail2);
    assert(a1.printed() =~= a1.source@ + rest1);
    assert(a2.printed() =~= a2.source@ + rest2);
    lemma_first_top(a1.source@, rest1, a2.source@, rest2, '(');
    a1.x.lemma_printed_shape();
    a2.x.lemma_printed_shape();
    lemma_var_expr_chars(a1.x);
    lemma_var_expr_chars(a2.x);
    assert(rest1.skip(1) =~= x1 + tail1);
    assert(rest2.skip(1) =~= x2 + tail2);
    lemma_first_top(x1, tail1, x2, tail2, ',');
    assert(y1 =~= tail1.skip(2).drop_last());
    assert(y2 =~= tail2.skip(2).drop_last());
    a1.x.lemma_printed_injective(a2.x);
    a1.y.lemma_printed_injective(a2.y);
}

proof fn lemma_cond_printed(c: Condition)
    ensures
        Definition::Cond(c).printed() == seq!['i', 'f', ' '] + cond_tail(c),
{
    let p = cond_parts(c);
    let l1 = p[0] + p[1];
    let l2 = l1 + p[2];
    let l3 = l2 + p[3];
    let l4 = l3 + p[4];
    let l5 = l4 + p[5];
    let l6 = l5 + p[6];
    let l7 = l6 + p[7];
    let l8 = l7 + p[8];
    let l9 = l8 + p[9];
    let r9 = p[9] + p[10];
    let r8 = p[8] + r9;
    let r7 = p[7] + r8;
    let r6 = p[6] + r7;
    let r5 = p[5] + r6;
    let r4 = p[4] + r5;
    let r3 = p[3] + r4;
    let r2 = p[2] + r3;
    let r1 = p[1] + r2;
    assert(Definition::Cond(c).printed() == l9 + p[10]);
    vstd::seq_lib::lemma_concat_associative(l8, p[9], p[10]);
    vstd::seq_lib::lemma_concat_associative(l7, p[8], r9);
    vstd::seq_lib::lemma_concat_associative(l6, p[7], r8);
    vstd::seq_lib::lemma_concat_associative(l5, p[6], r7);
    vstd::seq_lib::lemma_concat_associative(l4, p[5], r6);
    vstd::seq_lib::lemma_concat_associative(l3, p[4], r5);
    vstd::seq_lib::lemma_concat_associative(l2, p[3], r4);
    vstd::seq_lib::lemma_concat_associative(l1, p[2], r3);
    vstd::seq_lib::lemma_concat_associative(p[0], p[1], r2);
    assert(cond_tail(c) == r1);
}

/// Equal printed conditions have equal printed parts and comparisons.
proof fn lemma_cond_parts_eq(c1: Condition, c2: Condition)
    requires
        Definition::Cond(c1).names_ok(),
        Definition::Cond(c2).names_ok(),
        Definition::Cond(c1).printed() == Definition::Cond(c2).printed(),
    ensures
        c1.cmp == c2.cmp,
        c1.lhs.printed() == c2.lhs.printed(),
        c1.rhs.printed() == c2.rhs.printed(),
        c1.if_true.printed() == c2.if_true.printed(),
        c1.if_false.printed() == c2.if_false.printed(),
{
    lemma_operand_ok(*c1.lhs);
    lemma_operand_ok(*c1.rhs);
    lemma_operand_ok(*c1.if_true);
    lemma_operand_ok(*c2.lhs);
    lemma_operand_ok(*c2.rhs);
    lemma_operand_ok(*c2.if_true);
    lemma_cond_printed(c1);
    lemma_cond_printed(c2);
    let p = Definition::Cond(c1).printed();
    assert(cond_tail(c1) =~= p.skip(3));
    assert(cond_tail(c2) =~= p.skip(3));
    lemma_cond_split(c1, c2);
    lemma_def_operand_injective(*c1.lhs, *c2.lhs);
    lemma_def_operand_injective(*c1.rhs, *c2.rhs);
    lemma_def_operand_injective(*c1.if_true, *c2.if_true);
    lemma_def_operand_injective(*c1.if_false, *c2.if_false);
}

proof fn lemma_cond_injective(d1: Definition, d2: Definition)
    requires
        d1.names_ok(),
        d2.names_ok(),
        d1.printed() == d2.printed(),
        d1.kind() == 3,
        d2.kind() == 3,
    ensures
        d1.same_tree(d2),
    decreases d1, 0nat,
{
    let (c1, c2) = match (d1, d2) {
        (Definition::Cond(c1), Definition::Cond(c2)) => (c1, c2),
        _ => arbitrary(),
    };
    lemma_cond_parts_eq(c1, c2);
    c1.lhs.lemma_printed_injective(*c2.lhs);
    c1.rhs.lemma_printed_injective(*c2.rhs);
    c1.if_true.lemma_printed_injective(*c2.if_true);
    c1.if_false.lemma_printed_injective(*c2.if_false);
}

#[verifier::rlimit(100)]
proof fn lemma_bin_injective(d1: Definition, d2: Definition)
    requires
        d1.names_ok(),
        d2.names_ok(),
        d1.printed() == d2.printed(),
        d1.kind() == 4,
        d2.kind() == 4,
    ensures
        d1.same_tree(d2),
    decreases d1, 0nat,
{
    lemma_bin_printed(d1);
    lemma_bin_printed(d2);
    let (l1, r1, o1) = bin_parts(d1);
    let (l2, r2, o2) = bin_parts(d2);
    lemma_operand_ok(l1);
    lemma_operand_ok(l2);
    let a1 = parens_unless(l1.leaf(), l1.printed());
    let a2 = parens_unless(l2.leaf(), l2.printed());
    let b1 = parens_unless(r1.leaf(), r1.printed());
    let b2 = parens_unless(r2.leaf(), r2.printed());
    assert(infix(a1, seq![o1], b1) =~= a1 + (seq![' ', o1, ' '] + b1));
    assert(infix(a2, seq![o2], b2) =~= a2 + (seq![' ', o2, ' '] + b2));
    lemma_first_top(a1, seq![' ', o1, ' '] + b1, a2, seq![' ', o2, ' '] + b2, ' ');
    assert((seq![' ', o1, ' '] + b1)[1] == o1);
    assert((seq![' ', o2, ' '] + b2)[1] == o2);
    assert(b1 =~= (seq![' ', o1, ' '] + b1).skip(3));
    assert(b2 =~= (seq![' ', o2, ' '] + b2).skip(3));
    lemma_def_operand_injective(l1, l2);
    lemma_def_operand_injective(r1, r2);
    l1.lemma_printed_injective(l2);
    r1.lemma_printed_injective(r2);
}

impl Definition {
    /// Definitions whose parameters and reads are named by names print
    /// differently unless they are the same tree.
    pub proof fn lemma_printed_injective(self, other: Definition)
        requires
            self.names_ok(),
            other.names_ok(),
            self.printed() == other.printed(),
        ensures
            self.same_tree(other),
        decreases self, 1nat,
    {
        lemma_kind_eq(self, other);
        if self.kind() == 3 {
            lemma_cond_injective(self, other);
        } else if self.kind() == 4 {
            lemma_bin_injective(self, other);
        } else {
            match (self, other) {
                (Definition::Const(a), Definition::Const(b)) => {
                    lemma_decimal_injective(a as int, b as int);
                },
                (Definition::Access(a), Definition::Access(b)) => {
                    lemma_access_split(a, b);
                },
                _ => {},
            }
        }
    }
}

impl Func {
    /// Stages named by names, whose definitions name parameters and reads
    /// by names, print differently unless they have the same name and the
    /// same definition tree.
    pub proof fn lemma_printed_injective(self, other: Func)
        requires
            is_ident(self.name@),
            is_ident(other.name@),
            self.definition.names_ok(),
            other.definition.names_ok(),
            self.printed() == other.printed(),
        ensures
            self.name@ == other.name@,
            self.definition.same_tree(other.definition),
    {
        let head = seq!['(', 'x', ',', ' ', 'y', ')', ' ', '=', ' '];
        let t1 = head + self.definition.printed();
        let t2 = head + other.definition.printed();
        assert(self.printed() =~= self.name@ + t1);
        assert(other.printed() =~= other.name@ + t2);
        lemma_ident_chars(self.name@);
        lemma_ident_chars(other.name@);
        lemma_plain_balanced(self.name@);
        lemma_plain_balanced(other.name@);
        lemma_first_top(self.name@, t1, other.name@, t2, '(');
        assert(self.definition.printed() =~= t1.skip(9));
        assert(other.definition.printed() =~= t2.skip(9));
        self.definition.lemma_printed_injective(other.definition);
    }
}

/// Types with a canonical printed form.
pub trait PrettyPrint {
    spec fn spec_printed(&self) -> Seq<char>;

    spec fn spec_leaf(&self) -> bool;

    fn pretty_print(&self) -> (r: String)
        ensures
            r@ == self.spec_printed(),
    ;

    /// Whether the printed form never needs parentheses around it.
    fn is_leaf(&self) -> (r: bool)
        ensures
            r == self.spec_leaf(),
    ;
}

/// The printed form of `p`, in parentheses unless `p` is a leaf.
pub fn pretty_print_with_parens<P: PrettyPrint>(p: &P) -> (r: String)
    ensures
        r@ == parens_unless(p.spec_leaf(), p.spec_printed()),
{
    let pp = p.pretty_print();
    if p.is_leaf() {
        pp
    } else {
        proof {
            reveal_strlit("(");
            reveal_strlit(")");
        }
        let mut s = String::new();
        s.append("(");
        s.append(pp.as_str());
        s.append(")");
        assert(s@ =~= parens_unless(p.spec_leaf(), p.spec_printed()));
        s
    }
}

/// `left op right`, each side in parentheses unless it is a leaf.
pub fn combine_with_op<P: PrettyPrint>(op: &str, left: &P, right: &P) -> (r: String)
    ensures
        r@ == infix(
            parens_unless(left.spec_leaf(), left.spec_printed()),
            op@,
            parens_unless(right.spec_leaf(), right.spec_printed()),
        ),
{
    let l = pretty_print_with_parens(left);
    let r = pretty_print_with_parens(right);
    join_infix(&l, op, &r)
}

fn join_infix(l: &String, op: &str, r: &String) -> (s: String)
    ensures
        s@ == infix(l@, op@, r@),
{
    proof {
        reveal_strlit(" ");
    }
    let mut s = l.clone();
    s.append(" ");
    s.append(op);
    s.append(" ");
    s.append(r.as_str());
    assert(s@ =~= infix(l@, op@, r@));
    s
}

/// `s` in parentheses unless `leaf`.
fn parens_str(leaf: bool, s: String) -> (r: String)
    ensures
        r@ == parens_unless(leaf, s@),
{
    if leaf {
        s
    } else {
        proof {
            reveal_strlit("(");
            reveal_strlit(")");
        }
        let mut r = String::new();
        r.append("(");
        r.append(s.as_str());
        r.append(")");
        assert(r@ =~= parens_unless(leaf, s@));
        r
    }
}

fn var_expr_leaf(e: &VarExpr) -> (r: bool)
    ensures
        r == e.leaf(),
{
    match e {
        VarExpr::Var(_) | VarExpr::Const(_) => true,
        _ => false,
    }
}

fn print_var_expr_operand(e: &VarExpr) -> (r: String)
    ensures
        r@ == parens_unless(e.leaf(), e.printed()),
    decreases e, 1nat,
{
    parens_str(var_expr_leaf(e), print_var_expr(e))
}

fn print_var_expr(e: &VarExpr) -> (r: String)
    ensures
        r@ == e.printed(),
    decreases e, 0nat,
{
    proof {
        reveal_strlit("x");
        reveal_strlit("y");
        reveal_strlit("+");
        reveal_strlit("-");
        reveal_strlit("*");
    }
    match e {
        VarExpr::Var(Var::X) => "x".to_string(),
        VarExpr::Var(Var::Y) => "y".to_string(),
        VarExpr::Const(c) => decimal_string(*c),
        VarExpr::Add(l, r) => join_infix(&print_var_expr_operand(l), "+", &print_var_expr_operand(r)),
        VarExpr::Sub(l, r) => join_infix(&print_var_expr_operand(l), "-", &print_var_expr_operand(r)),
        VarExpr::Mul(l, r) => join_infix(&print_var_expr_operand(l), "*", &print_var_expr_operand(r)),
    }
}

impl PrettyPrint for VarExpr {
    open spec fn spec_printed(&self) -> Seq<char> {
        self.printed()
    }

    open spec fn spec_leaf(&self) -> bool {
        self.leaf()
    }

    fn pretty_print(&self) -> (r: String) {
        print_var_expr(self)
    }

    fn is_leaf(&self) -> (r: bool) {
        var_expr_leaf(self)
    }
}

impl PrettyPrint for Comparison {
    open spec fn spec_printed(&self) -> Seq<char> {
        self.printed()
    }

    open spec fn spec_leaf(&self) -> bool {
        true
    }

    fn pretty_print(&self) -> (r: String) {
        proof {
            reveal_strlit("==");
            reveal_strlit(">");
            reveal_strlit(">=");
            reveal_strlit("<");
            reveal_strlit("<=");
        }
        let s = match self {
            Comparison::EQ => "==",
            Comparison::GT => ">",
            Comparison::GTE => ">=",
            Comparison::LT => "<",
            Comparison::LTE => "<=",
        };
        let r = s.to_string();
        assert(r@ =~= self.printed());
        r
    }

    fn is_leaf(&self) -> (r: bool) {
        true
    }
}

fn print_access(a: &Access) -> (r: String)
    ensures
        r@ == a.printed(),
{
    proof {
        reveal_strlit("(");
        reveal_strlit(", ");
        reveal_strlit(")");
    }
    let mut r = a.source.clone();
    r.append("(");
    r.append(print_var_expr(&a.x).as_str());
    r.append(", ");
    r.append(print_var_expr(&a.y).as_str());
    r.append(")");
    assert(r@ =~= a.printed());
    r
}

impl PrettyPrint for Access {
    open spec fn spec_printed(&self) -> Seq<char> {
        self.printed()
    }

    open spec fn spec_leaf(&self) -> bool {
        true
    }

    fn pretty_print(&self) -> (r: String) {
        print_access(self)
    }

    fn is_leaf(&self) -> (r: bool) {
        true
    }
}

fn definition_leaf(d: &Definition) -> (r: bool)
    ensures
        r == d.leaf(),
{
    match d {
        Definition::Access(_) | Definition::Const(_) => true,
        _ => false,
    }
}

fn print_definition_operand(d: &Definition) -> (r: String)
    ensures
        r@ == parens_unless(d.leaf(), d.printed()),
    decreases d, 1nat,
{
    parens_str(definition_leaf(d), print_definition(d))
}

fn print_definition(d: &Definition) -> (r: String)
    ensures
        r@ == d.printed(),
    decreases d, 0nat,
{
    proof {
        reveal_strlit("+");
        reveal_strlit("-");
        reveal_strlit("*");
        reveal_strlit("/");
    }
    match d {
        Definition::Access(a) => print_access(a),
        Definition::Const(c) => decimal_string(*c),
        Definition::Param(p) => p.clone(),
        Definition::Cond(c) => {
            proof {
                reveal_strlit("if ");
                reveal_strlit(" ");
                reveal_strlit(" {");
                reveal_strlit("} else {");
                reveal_strlit("}");
            }
            let mut r = String::new();
            r.append("if ");
            r.append(print_definition_operand(&c.lhs).as_str());
            r.append(" ");
            r.append(c.cmp.pretty_print().as_str());
            r.append(" ");
            r.append(print_definition_operand(&c.rhs).as_str());
            r.append(" {");
            r.append(print_definition_operand(&c.if_true).as_str());
            r.append("} else {");
            r.append(print_definition_operand(&c.if_false).as_str());
            r.append("}");
            assert(r@ =~= d.printed());
            r
        },
        Definition::Add(l, r) => join_infix(
            &print_definition_operand(l),
            "+",
            &print_definition_operand(r),
        ),
        Definition::Sub(l, r) => join_infix(
            &print_definition_operand(l),
            "-",
            &print_definition_operand(r),
        ),
        Definition::Mul(l, r) => join_infix(
            &print_definition_operand(l),
            "*",
            &print_definition_operand(r),
        ),
        Definition::Div(l, r) => join_infix(
            &print_definition_operand(l),
            "/",
            &print_definition_operand(r),
        ),
    }
}

impl PrettyPrint for Definition {
    open spec fn spec_printed(&self) -> Seq<char> {
        self.printed()
    }

    open spec fn spec_leaf(&self) -> bool {
        self.leaf()
    }

    fn pretty_print(&self) -> (r: String) {
        print_definition(self)
    }

    fn is_leaf(&self) -> (r: bool) {
        definition_leaf(self)
    }
}

impl PrettyPrint for Func {
    open spec fn spec_printed(&self) -> Seq<char> {
        self.printed()
    }

    open spec fn spec_leaf(&self) -> bool {
        true
    }

    fn pretty_print(&self) -> (r: String) {
        proof {
            reveal_strlit("(x, y) = ");
        }
        let mut r = self.name.clone();
        r.append("(x, y) = ");
        r.append(print_definition(&self.definition).as_str());
        assert(r@ =~= self.printed());
        r
    }

    fn is_leaf(&self) -> (r: bool) {
        true
    }
}

} // verus!