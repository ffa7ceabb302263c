//! The lexical layer of the assembly language: lines, comments, tokens,
//! register names and decimal numbers, each given as a spec function over
//! characters together with the executable code proved to compute it.
use vstd::prelude::*;

verus! {

/// Starts a comment that runs to the end of the line.
pub const COMMENT_MARKER: char = '#';

/// Ends a label name.
pub const LABEL_DELIMITER: char = ':';

/// Starts a register name.
pub const REGISTER_PREFIX: char = 'x';

/// Numbers beyond this are all equally out of range; parsing stops
/// growing there so that it cannot overflow.
pub const NUMBER_CAP: u32 = 1_000_000;

/// ASCII whitespace, as `split_ascii_whitespace` knows it.
pub open spec fn is_space(c: char) -> bool {
    c == ' ' || c == '\t' || c == '\n' || c == '\r' || c == '\x0C'
}

/// Characters between operands: whitespace and commas, and in the
/// displacement form `imm(reg)` also the parentheses.
pub open spec fn is_separator(c: char, memory_form: bool) -> bool {
    is_space(c) || c == ',' || (memory_form && (c == '(' || c == ')'))
}

pub open spec fn is_blank(l: Seq<char>) -> bool {
    forall|i: int| 0 <= i < l.len() ==> is_space(#[trigger] l[i])
}

/// `i` is the first position of `c` in `l`.
pub open spec fn first_at(l: Seq<char>, c: char, i: int) -> bool {
    &&& 0 <= i < l.len()
    &&& l[i] == c
    &&& forall|j: int| 0 <= j < i ==> l[j] != c
}

/// Position of the first `c` in `l`, or its length when there is none.
pub open spec fn cut_point(l: Seq<char>, c: char) -> int {
    if exists|i: int| first_at(l, c, i) {
        choose|i: int| first_at(l, c, i)
    } else {
        l.len() as int
    }
}

/// The part of `l` before the first `c`; all of `l` when it has no `c`.
pub open spec fn before(l: Seq<char>, c: char) -> Seq<char> {
    l.subrange(0, cut_point(l, c))
}

/// The source split at each line feed; the last element is what follows
/// the last line feed (possibly nothing).
pub open spec fn split_lines(s: Seq<char>) -> Seq<Seq<char>>
    decreases s.len(),
{
    if s.len() == 0 {
        seq![Seq::<char>::empty()]
    } else {
        let prev = split_lines(s.drop_last());
        if s.last() == '\n' {
            prev.push(Seq::<char>::empty())
        } else {
            prev.drop_last().push(prev.last().push(s.last()))
        }
    }
}

/// A line without the carriage return that a CRLF line ending leaves.
pub open spec fn strip_cr(l: Seq<char>) -> Seq<char> {
    if l.len() > 0 && l.last() == '\r' {
        l.drop_last()
    } else {
        l
    }
}

/// The maximal runs of non-separator characters of `l`, in order.
pub open spec fn tokens(l: Seq<char>, memory_form: bool) -> Seq<Seq<char>>
    decreases l.len(),
{
    if l.len() == 0 {
        Seq::empty()
    } else {
        let prev = tokens(l.drop_last(), memory_form);
        let c = l.last();
        if is_separator(c, memory_form) {
            prev
        } else if l.len() >= 2 && !is_separator(l[l.len() - 2], memory_form) {
            prev.drop_last().push(prev.last().push(c))
        } else {
            prev.push(seq![c])
        }
    }
}

pub open spec fn is_digit(c: char) -> bool {
    '0' <= c <= '9'
}

pub open spec fn all_digits(d: Seq<char>) -> bool {
    d.len() > 0 && forall|i: int| 0 <= i < d.len() ==> is_digit(#[trigger] d[i])
}

/// The value of a string of decimal digits.
pub open spec fn decimal_value(d: Seq<char>) -> nat
    decreases d.len(),
{
    if d.len() == 0 {
        0
    } else {
        decimal_value(d.drop_last()) * 10 + (d.last() as nat - '0' as nat) as nat
    }
}

pub open spec fn capped(v: nat) -> nat {
    if v < NUMBER_CAP {
        v
    } else {
        NUMBER_CAP as nat
    }
}

/// The id a register reference `x<digits>` names.
pub open spec fn register_of(t: Seq<char>) -> Option<nat> {
    if t.len() >= 2 && t[0] == REGISTER_PREFIX && all_digits(t.drop_first()) {
        Some(decimal_value(t.drop_first()))
    } else {
        None
    }
}

/// The value of a decimal literal with an optional sign.
pub open spec fn number_of(t: Seq<char>) -> Option<int> {
    if all_digits(t) {
        Some(decimal_value(t) as int)
    } else if t.len() >= 2 && t[0] == '-' && all_digits(t.drop_first()) {
        Some(-(decimal_value(t.drop_first()) as int))
    } else if t.len() >= 2 && t[0] == '+' && all_digits(t.drop_first()) {
        Some(decimal_value(t.drop_first()) as int)
    } else {
        None
    }
}

/// The contents of each vector.
pub open spec fn views(v: Seq<Vec<char>>) -> Seq<Seq<char>> {
    v.map_values(|t: Vec<char>| t@)
}

// ---------------------------------------------------------------------
// Executable counterparts
// ---------------------------------------------------------------------

pub proof fn lemma_split_lines_nonempty(s: Seq<char>)
    ensures
        split_lines(s).len() > 0,
    decreases s.len(),
{
    if s.len() > 0 {
        lemma_split_lines_nonempty(s.drop_last());
    }
}

/// `t` without its first element; nothing when it is empty.
pub open spec fn skip_first(t: Seq<Seq<char>>) -> Seq<Seq<char>> {
    if t.len() == 0 {
        t
    } else {
        t.drop_first()
    }
}

/// The characters of `s`.
pub fn chars_of(s: &str) -> (r: Vec<char>)
    ensures
        r@ == s@,
{
    let mut r: Vec<char> = Vec::new();
    for c in it: s.chars()
        invariant
            r@ == it.seq().subrange(0, it.index() as int),
            it.seq() == s@,
    {
        r.push(c);
    }
    r
}

pub fn is_space_exec(c: char) -> (r: bool)
    ensures
        r == is_space(c),
{
    c == ' ' || c == '\t' || c == '\n' || c == '\r' || c == '\x0C'
}

fn is_separator_exec(c: char, memory_form: bool) -> (r: bool)
    ensures
        r == is_separator(c, memory_form),
{
    is_space_exec(c) || c == ',' || (memory_form && (c == '(' || c == ')'))
}

pub fn is_blank_exec(l: &Vec<char>) -> (r: bool)
    ensures
        r == is_blank(l@),
{
    let mut i: usize = 0;
    while i < l.len()
        invariant
            i <= l.len(),
            forall|j: int| 0 <= j < i ==> is_space(#[trigger] l@[j]),
        decreases l.len() - i,
    {
        if !is_space_exec(l[i]) {
            return false;
        }
        i += 1;
    }
    true
}

/// The position of the first `c` in `l`, or its length.
pub fn find_char(l: &Vec<char>, c: char) -> (r: usize)
    ensures
        r == cut_point(l@, c),
        r <= l.len(),
        r < l.len() <==> l@.contains(c),
{
    let mut i: usize = 0;
    while i < l.len()
        invariant
            i <= l.len(),
            forall|j: int| 0 <= j < i ==> l@[j] != c,
        decreases l.len() - i,
    {
        if l[i] == c {
            assert(first_at(l@, c, i as int));
            proof {
                let k = choose|k: int| first_at(l@, c, k);
                assert(k == i) by {
                    if k < i {
                    } else if k > i {
                        assert(l@[i as int] != c);
                    }
                }
            }
            return i;
        }
        i += 1;
    }
    assert(!exists|k: int| first_at(l@, c, k));
    assert(!l@.contains(c));
    i
}

/// The part of `l` before the first `c`.
pub fn prefix_before(l: &Vec<char>, c: char) -> (r: Vec<char>)
    ensures
        r@ == before(l@, c),
{
    let n = find_char(l, c);
    let mut r: Vec<char> = Vec::new();
    let mut i: usize = 0;
    while i < n
        invariant
            n <= l.len(),
            i <= n,
            r@ == l@.subrange(0, i as int),
        decreases n - i,
    {
        r.push(l[i]);
        assert(r@ =~= l@.subrange(0, i + 1));
        i += 1;
    }
    r
}

/// `l` without a final carriage return.
pub fn strip_cr_exec(l: &Vec<char>) -> (r: Vec<char>)
    ensures
        r@ == strip_cr(l@),
{
    let n = if l.len() > 0 && l[l.len() - 1] == '\r' {
        l.len() - 1
    } else {
        l.len()
    };
    let mut r: Vec<char> = Vec::new();
    let mut i: usize = 0;
    while i < n
        invariant
            n <= l.len(),
            i <= n,
            r@ == l@.subrange(0, i as int),
        decreases n - i,
    {
        r.push(l[i]);
        assert(r@ =~= l@.subrange(0, i + 1));
        i += 1;
    }
    assert(r@ =~= strip_cr(l@));
    r
}

/// Whether two character strings are equal.
pub fn same_chars(a: &Vec<char>, b: &Vec<char>) -> (r: bool)
    ensures
        r == (a@ == b@),
{
    if a.len() != b.len() {
        return false;
    }
    let mut i: usize = 0;
    while i < a.len()
        invariant
            a.len() == b.len(),
            i <= a.len(),
            forall|j: int| 0 <= j < i ==> a@[j] == b@[j],
        decreases a.len() - i,
    {
        if a[i] != b[i] {
            return false;
        }
        i += 1;
    }
    assert(a@ =~= b@);
    true
}

proof fn lemma_views_push(v: Seq<Vec<char>>, t: Vec<char>)
    ensures
        views(v.push(t)) == views(v).push(t@),
{
    assert(views(v.push(t)) =~= views(v).push(t@));
}

/// The tokens of `l`.
pub fn tokenize(l: &Vec<char>, memory_form: bool) -> (r: Vec<Vec<char>>)
    ensures
        views(r@) == tokens(l@, memory_form),
{
    let mut toks: Vec<Vec<char>> = Vec::new();
    let mut cur: Vec<char> = Vec::new();
    let mut i: usize = 0;
    while i < l.len()
        invariant
            i <= l.len(),
            tokens(l@.subrange(0, i as int), memory_form) == if cur.len() > 0 {
                views(toks@).push(cur@)
            } else {
                views(toks@)
            },
            cur.len() > 0 <==> (i > 0 && !is_separator(l@[i - 1], memory_form)),
        decreases l.len() - i,
    {
        let c = l[i];
        let ghost pre = l@.subrange(0, i as int);
        let ghost next = l@.subrange(0, i + 1);
        let ghost prev = tokens(pre, memory_form);
        assert(next.drop_last() =~= pre);
        assert(next.last() == c);
        assert(i > 0 ==> next[next.len() - 2] == l@[i - 1]);
        if is_separator_exec(c, memory_form) {
            assert(tokens(next, memory_form) == prev);
            if cur.len() > 0 {
                proof {
                    lemma_views_push(toks@, cur);
                }
                toks.push(cur);
                cur = Vec::new();
            }
        } else {
            if cur.len() > 0 {
                assert(tokens(next, memory_form) == prev.drop_last().push(prev.last().push(c)));
                assert(prev.drop_last() =~= views(toks@));
            } else {
                assert(tokens(next, memory_form) == prev.push(seq![c]));
                assert(cur@.push(c) =~= seq![c]);
            }
            cur.push(c);
        }
        i += 1;
    }
    assert(l@.subrange(0, i as int) =~= l@);
    if cur.len() > 0 {
        proof {
            lemma_views_push(toks@, cur);
        }
        toks.push(cur);
    }
    toks
}

fn is_digit_exec(c: char) -> (r: bool)
    ensures
        r == is_digit(c),
{
    '0' <= c && c <= '9'
}

/// Whether `t[from..]` is a non-empty run of digits, and if so its value,
/// capped.
fn digits_value(t: &Vec<char>, from: usize) -> (r: Option<u32>)
    requires
        from <= t.len(),
    ensures
        all_digits(t@.subrange(from as int, t.len() as int)) <==> r is Some,
        r matches Some(v) ==> v == capped(decimal_value(t@.subrange(from as int, t.len() as int))),
{
    if from == t.len() {
        return None;
    }
    let mut acc: u32 = 0;
    let mut i: usize = from;
    while i < t.len()
        invariant
            from <= i <= t.len(),
            forall|j: int| from <= j < i ==> is_digit(#[trigger] t@[j]),
            acc == capped(decimal_value(t@.subrange(from as int, i as int))),
        decreases t.len() - i,
    {
        let c = t[i];
        if !is_digit_exec(c) {
            assert(t@.subrange(from as int, t.len() as int)[i - from] == c);
            return None;
        }
        let d = (c as u32) - ('0' as u32);
        let ghost sub = t@.subrange(from as int, i + 1);
        assert(sub.drop_last() =~= t@.subrange(from as int, i as int));
        assert(decimal_value(sub) == decimal_value(sub.drop_last()) * 10 + d);
        if acc < NUMBER_CAP {
            let next = acc * 10 + d;
            acc = if next < NUMBER_CAP {
                next
            } else {
                NUMBER_CAP
            };
        }
        i += 1;
    }
    assert(all_digits(t@.subrange(from as int, t.len() as int)));
    Some(acc)
}

/// The register id `t` names, capped.
pub fn parse_register(t: &Vec<char>) -> (r: Option<u32>)
    ensures
        match register_of(t@) {
            Some(v) => r == Some(capped(v) as u32),
            None => r is None,
        },
{
    if t.len() < 2 || t[0] != REGISTER_PREFIX {
        return None;
    }
    assert(t@.subrange(1, t.len() as int) =~= t@.drop_first());
    digits_value(t, 1)
}

/// The value of the literal `t`, its magnitude capped.
pub fn parse_number(t: &Vec<char>) -> (r: Option<i64>)
    ensures
        match number_of(t@) {
            Some(v) => r matches Some(x) && (if v < 0 {
                x == -(capped((-v) as nat) as int)
            } else {
                x == capped(v as nat)
            }),
            None => r is None,
        },
{
    assert(t@.subrange(0, t.len() as int) =~= t@);
    match digits_value(t, 0) {
        Some(v) => {
            return Some(v as i64);
        },
        None => {},
    }
    if t.len() < 2 || (t[0] != '-' && t[0] != '+') {
        return None;
    }
    assert(t@.subrange(1, t.len() as int) =~= t@.drop_first());
    match digits_value(t, 1) {
        Some(v) => {
            if t[0] == '-' {
                Some(-(v as i64))
            } else {
                Some(v as i64)
            }
        },
        None => None,
    }
}

// ---------------------------------------------------------------------
// Formatted operand lines
// ---------------------------------------------------------------------

/// `t` is non-empty and holds no separator.
pub open spec fn is_word(t: Seq<char>, memory_form: bool) -> bool {
    t.len() > 0 && forall|i: int| 0 <= i < t.len() ==> !is_separator(#[trigger] t[i], memory_form)
}

pub open spec fn digit_char(d: nat) -> char {
    if d == 0 {
        '0'
    } else if d == 1 {
        '1'
    } else if d == 2 {
        '2'
    } else if d == 3 {
        '3'
    } else if d == 4 {
        '4'
    } else if d == 5 {
        '5'
    } else if d == 6 {
        '6'
    } else if d == 7 {
        '7'
    } else if d == 8 {
        '8'
    } else {
        '9'
    }
}

/// The decimal digits of `n`, without leading zeros.
pub open spec fn decimal_text(n: nat) -> Seq<char>
    decreases n,
{
    if n < 10 {
        seq![digit_char(n)]
    } else {
        decimal_text(n / 10).push(digit_char(n % 10))
    }
}

/// The register reference `x<n>`.
pub open spec fn register_text(n: nat) -> Seq<char> {
    seq![REGISTER_PREFIX] + decimal_text(n)
}

/// The decimal literal of `v`, with a minus sign when negative.
pub open spec fn number_text(v: int) -> Seq<char> {
    if v < 0 {
        seq!['-'] + decimal_text((-v) as nat)
    } else {
        decimal_text(v as nat)
    }
}

/// The line `m o1, o2, o3`.
pub open spec fn operand_line(m: Seq<char>, o1: Seq<char>, o2: Seq<char>, o3: Seq<char>) -> Seq<
    char,
> {
    m + seq![' '] + o1 + seq![',', ' '] + o2 + seq![',', ' '] + o3
}

proof fn lemma_digit_char(d: nat)
    requires
        d < 10,
    ensures
        is_digit(digit_char(d)),
        digit_char(d) as nat - '0' as nat == d,
{
}

pub proof fn lemma_decimal_text(n: nat)
    ensures
        all_digits(decimal_text(n)),
        decimal_value(decimal_text(n)) == n,
    decreases n,
{
    let t = decimal_text(n);
    lemma_digit_char(n % 10);
    if n < 10 {
        assert(t.drop_last() =~= Seq::<char>::empty());
        assert(decimal_value(Seq::<char>::empty()) == 0);
        assert(decimal_value(t) == n);
    } else {
        lemma_decimal_text(n / 10);
        assert(t.drop_last() =~= decimal_text(n / 10));
        assert(forall|i: int| 0 <= i < t.len() - 1 ==> t[i] == decimal_text(n / 10)[i]);
        assert(t.last() == digit_char(n % 10));
        assert(decimal_value(t) == (n / 10) * 10 + n % 10);
    }
}

/// A token that ends in a non-separator leaves at least one token.
proof fn lemma_tokens_not_empty(l: Seq<char>, memory_form: bool)
    requires
        l.len() > 0,
        !is_separator(l.last(), memory_form),
    ensures
        tokens(l, memory_form).len() > 0,
    decreases l.len(),
{
    if l.len() >= 2 && !is_separator(l[l.len() - 2], memory_form) {
        assert(l.drop_last().last() == l[l.len() - 2]);
        lemma_tokens_not_empty(l.drop_last(), memory_form);
    }
}

/// A separator splits the tokens: those before it, then those after.
pub proof fn lemma_tokens_split(x: Seq<char>, c: char, y: Seq<char>, memory_form: bool)
    requires
        is_separator(c, memory_form),
    ensures
        tokens(x + seq![c] + y, memory_form) == tokens(x, memory_form) + tokens(y, memory_form),
    decreases y.len(),
{
    let l = x + seq![c] + y;
    if y.len() == 0 {
        assert(l.drop_last() =~= x);
        assert(tokens(x, memory_form) + tokens(y, memory_form) =~= tokens(x, memory_form));
    } else {
        let y0 = y.drop_last();
        lemma_tokens_split(x, c, y0, memory_form);
        assert(l.drop_last() =~= x + seq![c] + y0);
        assert(y0.len() == 0 ==> y.drop_last() =~= Seq::<char>::empty());
        let tx = tokens(x, memory_form);
        let ty0 = tokens(y0, memory_form);
        if !is_separator(y.last(), memory_form) {
            if y.len() >= 2 && !is_separator(y[y.len() - 2], memory_form) {
                assert(l[l.len() - 2] == y[y.len() - 2]);
                assert(y0.last() == y[y.len() - 2]);
                lemma_tokens_not_empty(y0, memory_form);
                assert((tx + ty0).drop_last().push((tx + ty0).last().push(y.last())) =~= tx
                    + ty0.drop_last().push(ty0.last().push(y.last())));
            } else {
                if y.len() >= 2 {
                    assert(l[l.len() - 2] == y[y.len() - 2]);
                } else {
                    assert(l[l.len() - 2] == c);
                }
                assert((tx + ty0).push(seq![y.last()]) =~= tx + ty0.push(seq![y.last()]));
            }
        }
    }
}

/// A word is a single token.
pub proof fn lemma_tokens_word(t: Seq<char>, memory_form: bool)
    requires
        is_word(t, memory_form),
    ensures
        tokens(t, memory_form) == seq![t],
    decreases t.len(),
{
    assert(!is_separator(t[t.len() - 1], memory_form));
    if t.len() == 1 {
        assert(t.drop_last() =~= Seq::<char>::empty());
        assert(tokens(t.drop_last(), memory_form) == Seq::<Seq<char>>::empty());
        assert(seq![t.last()] =~= t);
        assert(Seq::<Seq<char>>::empty().push(seq![t.last()]) =~= seq![t]);
    } else {
        assert(is_word(t.drop_last(), memory_form));
        lemma_tokens_word(t.drop_last(), memory_form);
        assert(t.drop_last().push(t.last()) =~= t);
        assert(t[t.len() - 2] == t.drop_last().last());
        assert(!is_separator(t[t.len() - 2], memory_form));
        assert(seq![t.drop_last()].drop_last().push(seq![t.drop_last()].last().push(t.last()))
            =~= seq![t]);
    }
}

/// The tokens of `m o1, o2, o3` are its four words.
pub proof fn lemma_tokens_operand_line(
    m: Seq<char>,
    o1: Seq<char>,
    o2: Seq<char>,
    o3: Seq<char>,
    memory_form: bool,
)
    requires
        is_word(m, memory_form),
        is_word(o1, memory_form),
        is_word(o2, memory_form),
        is_word(o3, memory_form),
    ensures
        tokens(operand_line(m, o1, o2, o3), memory_form) == seq![m, o1, o2, o3],
{
    let e = Seq::<char>::empty();
    let r3 = e + seq![' '] + o3;
    let r2 = o2 + seq![','] + r3;
    let q2 = e + seq![' '] + r2;
    let r1 = o1 + seq![','] + q2;
    assert(operand_line(m, o1, o2, o3) =~= m + seq![' '] + r1);
    lemma_tokens_split(m, ' ', r1, memory_form);
    lemma_tokens_split(o1, ',', q2, memory_form);
    lemma_tokens_split(e, ' ', r2, memory_form);
    lemma_tokens_split(o2, ',', r3, memory_form);
    lemma_tokens_split(e, ' ', o3, memory_form);
    assert(tokens(e, memory_form) =~= Seq::<Seq<char>>::empty());
    lemma_tokens_word(m, memory_form);
    lemma_tokens_word(o1, memory_form);
    lemma_tokens_word(o2, memory_form);
    lemma_tokens_word(o3, memory_form);
    assert(seq![m] + (seq![o1] + (Seq::empty() + (seq![o2] + (Seq::empty() + seq![o3]))))
        =~= seq![m, o1, o2, o3]);
}

/// A line made of words (in the displacement-form sense) has no `(`.
pub proof fn lemma_operand_line_no_paren(m: Seq<char>, o1: Seq<char>, o2: Seq<char>, o3: Seq<char>)
    requires
        is_word(m, true),
        is_word(o1, true),
        is_word(o2, true),
        is_word(o3, true),
    ensures
        !operand_line(m, o1, o2, o3).contains('('),
{
    let l = operand_line(m, o1, o2, o3);
    assert forall|i: int| 0 <= i < l.len() implies l[i] != '(' by {
        let n1 = m.len() + 1;
        let n2 = n1 + o1.len() + 2;
        let n3 = n2 + o2.len() + 2;
        if i < m.len() {
            assert(l[i] == m[i]);
        } else if i < n1 {
        } else if i < n1 + o1.len() {
            assert(l[i] == o1[i - n1]);
        } else if i < n2 {
        } else if i < n2 + o2.len() {
            assert(l[i] == o2[i - n2]);
        } else if i < n3 {
        } else {
            assert(l[i] == o3[i - n3]);
        }
    }
}

/// A register reference is a word, and names register `n`.
pub proof fn lemma_register_text(n: nat, memory_form: bool)
    ensures
        is_word(register_text(n), memory_form),
        register_of(register_text(n)) == Some(n),
        !register_text(n).contains('('),
{
    let t = register_text(n);
    lemma_decimal_text(n);
    assert(t.drop_first() =~= decimal_text(n));
    assert forall|i: int| 0 <= i < t.len() implies !is_separator(#[trigger] t[i], memory_form)
        && t[i] != '(' by {
        if i > 0 {
            assert(t[i] == decimal_text(n)[i - 1]);
        }
    }
}

/// A decimal literal is a word, and has value `v`.
pub proof fn lemma_number_text(v: int, memory_form: bool)
    ensures
        is_word(number_text(v), memory_form),
        number_of(number_text(v)) == Some(v),
        !number_text(v).contains('('),
{
    let t = number_text(v);
    if v < 0 {
        lemma_decimal_text((-v) as nat);
        assert(t.drop_first() =~= decimal_text((-v) as nat));
        assert(t[0] == '-');
        assert(!all_digits(t));
        assert forall|i: int| 0 <= i < t.len() implies !is_separator(#[trigger] t[i], memory_form)
            && t[i] != '(' by {
            if i > 0 {
                assert(t[i] == decimal_text((-v) as nat)[i - 1]);
            }
        }
    } else {
        lemma_decimal_text(v as nat);
        assert forall|i: int| 0 <= i < t.len() implies !is_separator(#[trigger] t[i], memory_form)
            && t[i] != '(' by {}
    }
}

} // verus!
