use vstd::prelude::*;
use vstd::std_specs::iter::IteratorSpec;

verus! {

/// Why a piece of text is no integer of the asked type.
#[derive(Debug, Clone, Copy, PartialEq, Eq, Structural)]
pub enum IntErrorKind {
    Empty,
    InvalidDigit,
    PosOverflow,
    NegOverflow,
}

/// The characters with the Unicode `White_Space` property, which `trim` strips.
pub open spec fn is_white(c: char) -> bool {
    let x = c as u32;
    ||| 9 <= x <= 13
    ||| x == 32
    ||| x == 0x85
    ||| x == 0xA0
    ||| x == 0x1680
    ||| 0x2000 <= x <= 0x200A
    ||| x == 0x2028
    ||| x == 0x2029
    ||| x == 0x202F
    ||| x == 0x205F
    ||| x == 0x3000
}

/// `s` without its leading white space.
pub open spec fn trim_start(s: Seq<char>) -> Seq<char>
    decreases s.len(),
{
    if s.len() > 0 && is_white(s[0]) {
        trim_start(s.drop_first())
    } else {
        s
    }
}

/// `s` without its trailing white space.
pub open spec fn trim_end(s: Seq<char>) -> Seq<char>
    decreases s.len(),
{
    if s.len() > 0 && is_white(s.last()) {
        trim_end(s.drop_last())
    } else {
        s
    }
}

/// `s` without leading and trailing white space.
pub open spec fn trim(s: Seq<char>) -> Seq<char> {
    trim_end(trim_start(s))
}

/// The pieces of `s` between the occurrences of `c`, in order; there is always
/// one piece more than there are occurrences.
pub open spec fn split(s: Seq<char>, c: char) -> Seq<Seq<char>>
    decreases s.len(),
{
    if s.len() == 0 {
        seq![Seq::<char>::empty()]
    } else {
        let p = split(s.drop_last(), c);
        if s.last() == c {
            p.push(Seq::<char>::empty())
        } else {
            p.update(p.len() - 1, p.last().push(s.last()))
        }
    }
}

/// The pieces joined with `sep` between them.
pub open spec fn join(ps: Seq<Seq<char>>, sep: Seq<char>) -> Seq<char>
    decreases ps.len(),
{
    if ps.len() == 0 {
        Seq::<char>::empty()
    } else if ps.len() == 1 {
        ps[0]
    } else {
        join(ps.drop_last(), sep) + sep + ps.last()
    }
}

pub open spec fn is_digit(c: char) -> bool {
    48 <= (c as u32) <= 57
}

pub open spec fn digit_value(c: char) -> int {
    (c as u32) - 48
}

/// Reads decimal digits from left to right; the first character that is no
/// digit gives `InvalidDigit`, and the first digit that takes the value past
/// `bound` gives `over`.
pub open spec fn scan_digits(ds: Seq<char>, bound: int, over: IntErrorKind) -> Result<int, IntErrorKind>
    decreases ds.len(),
{
    if ds.len() == 0 {
        Ok(0)
    } else {
        match scan_digits(ds.drop_last(), bound, over) {
            Err(e) => Err(e),
            Ok(v) => if !is_digit(ds.last()) {
                Err(IntErrorKind::InvalidDigit)
            } else if v * 10 + digit_value(ds.last()) > bound {
                Err(over)
            } else {
                Ok(v * 10 + digit_value(ds.last()))
            },
        }
    }
}

/// The `u64` that `s` spells in decimal, with an optional leading `+`.
pub open spec fn parse_u64_spec(s: Seq<char>) -> Result<u64, IntErrorKind> {
    if s.len() == 0 {
        Err(IntErrorKind::Empty)
    } else if s.len() == 1 && (s[0] == '+' || s[0] == '-') {
        Err(IntErrorKind::InvalidDigit)
    } else {
        let ds = if s[0] == '+' { s.drop_first() } else { s };
        match scan_digits(ds, u64::MAX as int, IntErrorKind::PosOverflow) {
            Ok(v) => Ok(v as u64),
            Err(e) => Err(e),
        }
    }
}

/// The `i64` that `s` spells in decimal, with an optional leading `+` or `-`.
pub open spec fn parse_i64_spec(s: Seq<char>) -> Result<i64, IntErrorKind> {
    if s.len() == 0 {
        Err(IntErrorKind::Empty)
    } else if s.len() == 1 && (s[0] == '+' || s[0] == '-') {
        Err(IntErrorKind::InvalidDigit)
    } else if s[0] == '-' {
        match scan_digits(s.drop_first(), 0x8000_0000_0000_0000, IntErrorKind::NegOverflow) {
            Ok(v) => Ok((-v) as i64),
            Err(e) => Err(e),
        }
    } else {
        let ds = if s[0] == '+' { s.drop_first() } else { s };
        match scan_digits(ds, i64::MAX as int, IntErrorKind::PosOverflow) {
            Ok(v) => Ok(v as i64),
            Err(e) => Err(e),
        }
    }
}

pub open spec fn digit_char(d: int) -> char {
    (d + 48) as char
}

/// The decimal digits of `n`, most significant first, without leading zeros.
pub open spec fn dec_nat(n: nat) -> Seq<char>
    decreases n,
{
    if n < 10 {
        seq![digit_char(n as int)]
    } else {
        dec_nat(n / 10).push(digit_char((n % 10) as int))
    }
}

/// `x` in decimal, with a leading `-` when it is negative.
pub open spec fn dec_int(x: int) -> Seq<char> {
    if x < 0 {
        seq!['-'] + dec_nat((-x) as nat)
    } else {
        dec_nat(x as nat)
    }
}

/// Whether `c` is white space.
pub fn char_is_white(c: char) -> (b: bool)
    ensures
        b == is_white(c),
{
    let x = c as u32;
    (9 <= x && x <= 13) || x == 32 || x == 0x85 || x == 0xA0 || x == 0x1680 || (0x2000 <= x && x
        <= 0x200A) || x == 0x2028 || x == 0x2029 || x == 0x202F || x == 0x205F || x == 0x3000
}

proof fn lemma_trim_start_skip(s: Seq<char>, a: int)
    requires
        0 <= a <= s.len(),
        forall|j: int| 0 <= j < a ==> is_white(#[trigger] s[j]),
        a == s.len() || !is_white(s[a]),
    ensures
        trim_start(s) == s.skip(a),
    decreases a,
{
    if a == 0 {
        assert(s.skip(0) =~= s);
    } else {
        assert(is_white(s[0]));
        assert forall|j: int| 0 <= j < a - 1 implies is_white(#[trigger] s.drop_first()[j]) by {
            assert(s.drop_first()[j] == s[j + 1]);
        }
        lemma_trim_start_skip(s.drop_first(), a - 1);
        assert(s.drop_first().skip(a - 1) =~= s.skip(a));
    }
}

proof fn lemma_trim_end_take(s: Seq<char>, b: int)
    requires
        0 <= b <= s.len(),
        forall|j: int| b <= j < s.len() ==> is_white(#[trigger] s[j]),
        b == 0 || !is_white(s[b - 1]),
    ensures
        trim_end(s) == s.take(b),
    decreases s.len() - b,
{
    if b == s.len() {
        assert(s.take(b) =~= s);
    } else {
        assert(is_white(s.last()));
        assert forall|j: int| b <= j < s.drop_last().len() implies is_white(#[trigger] s.drop_last()[j]) by {
            assert(s.drop_last()[j] == s[j]);
        }
        lemma_trim_end_take(s.drop_last(), b);
        assert(s.drop_last().take(b) =~= s.take(b));
    }
}

/// `s` without leading and trailing white space.
pub fn trim_chars(s: &[char]) -> (r: Vec<char>)
    ensures
        r@ == trim(s@),
{
    let n = s.len();
    let mut a: usize = 0;
    while a < n && char_is_white(s[a])
        invariant
            a <= n,
            n == s@.len(),
            forall|j: int| 0 <= j < a ==> is_white(#[trigger] s@[j]),
        decreases n - a,
    {
        a = a + 1;
    }
    proof {
        lemma_trim_start_skip(s@, a as int);
    }
    let mut b: usize = n;
    while b > a && char_is_white(s[b - 1])
        invariant
            a <= b <= n,
            n == s@.len(),
            forall|j: int| b <= j < n ==> is_white(#[trigger] s@[j]),
        decreases b,
    {
        b = b - 1;
    }
    proof {
        let t = s@.skip(a as int);
        assert forall|j: int| b - a <= j < t.len() implies is_white(#[trigger] t[j]) by {
            assert(t[j] == s@[j + a]);
        }
        if b > a {
            assert(t[b - a - 1] == s@[b - 1]);
        }
        lemma_trim_end_take(t, b - a);
    }
    let mut r: Vec<char> = Vec::new();
    let mut i: usize = a;
    while i < b
        invariant
            a <= i <= b,
            b <= n,
            n == s@.len(),
            r@ == s@.subrange(a as int, i as int),
        decreases b - i,
    {
        r.push(s[i]);
        proof {
            assert(s@.subrange(a as int, i + 1) =~= s@.subrange(a as int, i as int).push(s@[i as int]));
        }
        i = i + 1;
    }
    proof {
        assert(s@.skip(a as int).take(b - a) =~= s@.subrange(a as int, b as int));
    }
    r
}

/// The views of a list of character vectors.
pub open spec fn views(v: Seq<Vec<char>>) -> Seq<Seq<char>> {
    v.map_values(|x: Vec<char>| x@)
}

pub proof fn lemma_split_len(s: Seq<char>, c: char)
    ensures
        split(s, c).len() >= 1,
    decreases s.len(),
{
    if s.len() > 0 {
        lemma_split_len(s.drop_last(), c);
    }
}

/// The pieces of `s` between the occurrences of `c`.
pub fn split_chars(s: &[char], c: char) -> (r: Vec<Vec<char>>)
    ensures
        views(r@) == split(s@, c),
{
    let n = s.len();
    let mut parts: Vec<Vec<char>> = Vec::new();
    let mut cur: Vec<char> = Vec::new();
    let mut i: usize = 0;
    while i < n
        invariant
            i <= n,
            n == s@.len(),
            views(parts@).push(cur@) == split(s@.take(i as int), c),
        decreases n - i,
    {
        proof {
            assert(s@.take(i + 1).drop_last() =~= s@.take(i as int));
            lemma_split_len(s@.take(i as int), c);
        }
        if s[i] == c {
            let done = cur;
            parts.push(done);
            cur = Vec::new();
            proof {
                assert(views(parts@).push(cur@) =~= split(s@.take(i as int), c).push(Seq::<char>::empty()));
            }
        } else {
            cur.push(s[i]);
            proof {
                let p = split(s@.take(i as int), c);
                assert(views(parts@).push(cur@) =~= p.update(p.len() - 1, p.last().push(s@[i as int])));
            }
        }
        i = i + 1;
    }
    parts.push(cur);
    proof {
        assert(s@.take(n as int) =~= s@);
        assert(views(parts@) =~= split(s@, c));
    }
    parts
}

proof fn lemma_scan_err_extends(ds: Seq<char>, k: int, bound: int, over: IntErrorKind)
    requires
        0 <= k <= ds.len(),
        scan_digits(ds.take(k), bound, over) is Err,
    ensures
        scan_digits(ds, bound, over) == scan_digits(ds.take(k), bound, over),
    decreases ds.len() - k,
{
    if k == ds.len() {
        assert(ds.take(k) =~= ds);
    } else {
        assert(ds.drop_last().take(k) =~= ds.take(k));
        lemma_scan_err_extends(ds.drop_last(), k, bound, over);
    }
}

/// Reads the digits of `s` from `start` on.
fn scan_chars(s: &[char], start: usize, bound: u64, over: IntErrorKind) -> (r: Result<u64, IntErrorKind>)
    requires
        start <= s@.len(),
    ensures
        match r {
            Ok(v) => scan_digits(s@.skip(start as int), bound as int, over) == Ok::<int, IntErrorKind>(v as int),
            Err(e) => scan_digits(s@.skip(start as int), bound as int, over) == Err::<int, IntErrorKind>(e),
        },
{
    let ghost ds = s@.skip(start as int);
    let n = s.len();
    let mut acc: u64 = 0;
    let mut i: usize = start;
    while i < n
        invariant
            start <= i <= n,
            n == s@.len(),
            ds == s@.skip(start as int),
            scan_digits(ds.take(i - start), bound as int, over) == Ok::<int, IntErrorKind>(acc as int),
            acc <= bound,
        decreases n - i,
    {
        let c = s[i];
        let x = c as u32;
        proof {
            assert(ds.take(i + 1 - start).drop_last() =~= ds.take(i - start));
            assert(ds.take(i + 1 - start).last() == c);
        }
        if x < 48 || x > 57 {
            proof {
                lemma_scan_err_extends(ds, i + 1 - start, bound as int, over);
            }
            return Err(IntErrorKind::InvalidDigit);
        }
        let nv: u128 = acc as u128 * 10 + (x - 48) as u128;
        if nv > bound as u128 {
            proof {
                lemma_scan_err_extends(ds, i + 1 - start, bound as int, over);
            }
            return Err(over);
        }
        acc = nv as u64;
        i = i + 1;
    }
    proof {
        assert(ds.take(n - start) =~= ds);
    }
    Ok(acc)
}

/// The `u64` that `s` spells in decimal, as `str::parse::<u64>` reads it.
pub fn parse_u64(s: &[char]) -> (r: Result<u64, IntErrorKind>)
    ensures
        r == parse_u64_spec(s@),
{
    let n = s.len();
    if n == 0 {
        return Err(IntErrorKind::Empty);
    }
    if n == 1 && (s[0] == '+' || s[0] == '-') {
        return Err(IntErrorKind::InvalidDigit);
    }
    let start: usize = if s[0] == '+' { 1 } else { 0 };
    proof {
        if start == 1 {
            assert(s@.skip(1) =~= s@.drop_first());
        } else {
            assert(s@.skip(0) =~= s@);
        }
    }
    match scan_chars(s, start, u64::MAX, IntErrorKind::PosOverflow) {
        Ok(v) => Ok(v),
        Err(e) => Err(e),
    }
}

/// The `i64` that `s` spells in decimal, as `str::parse::<i64>` reads it.
pub fn parse_i64(s: &[char]) -> (r: Result<i64, IntErrorKind>)
    ensures
        r == parse_i64_spec(s@),
{
    let n = s.len();
    if n == 0 {
        return Err(IntErrorKind::Empty);
    }
    if n == 1 && (s[0] == '+' || s[0] == '-') {
        return Err(IntErrorKind::InvalidDigit);
    }
    if s[0] == '-' {
        proof {
            assert(s@.skip(1) =~= s@.drop_first());
        }
        match scan_chars(s, 1, 0x8000_0000_0000_0000u64, IntErrorKind::NegOverflow) {
            Ok(m) => {
                if m == 0x8000_0000_0000_0000u64 {
                    Ok(i64::MIN)
                } else {
                    Ok(-(m as i64))
                }
            },
            Err(e) => Err(e),
        }
    } else {
        let start: usize = if s[0] == '+' { 1 } else { 0 };
        proof {
            if start == 1 {
                assert(s@.skip(1) =~= s@.drop_first());
            } else {
                assert(s@.skip(0) =~= s@);
            }
        }
        match scan_chars(s, start, i64::MAX as u64, IntErrorKind::PosOverflow) {
            Ok(v) => Ok(v as i64),
            Err(e) => Err(e),
        }
    }
}

/// The characters of `s`, in order.
pub fn str_chars(s: &str) -> (r: Vec<char>)
    ensures
        r@ == s@,
{
    broadcast use vstd::string::group_string_axioms;

    let mut r: Vec<char> = Vec::new();
    let mut it = s.chars();
    loop
        invariant
            r@ + it.remaining() == s@,
            it.obeys_prophetic_iter_laws(),
            it.decrease() is Some,
        ensures
            r@ == s@,
        decreases it.decrease()->0,
    {
        match it.next() {
            Some(c) => {
                r.push(c);
            },
            None => {
                assert(r@ + it.remaining() =~= r@);
                break;
            },
        }
    }
    r
}

/// The characters the text format writes.
pub open spec fn writable(c: char) -> bool {
    is_digit(c) || c == '-' || c == ',' || c == ' ' || c == '\r' || c == '\n'
}

/// Appends one character of the text format.
pub fn push_char(s: &mut String, c: char)
    requires
        writable(c),
    ensures
        final(s)@ == old(s)@.push(c),
{
    match c {
        '0' => {
            s.append("0");
            proof {
                reveal_strlit("0");
            }
        },
        '1' => {
            s.append("1");
            proof {
                reveal_strlit("1");
            }
        },
        '2' => {
            s.append("2");
            proof {
                reveal_strlit("2");
            }
        },
        '3' => {
            s.append("3");
            proof {
                reveal_strlit("3");
            }
        },
        '4' => {
            s.append("4");
            proof {
                reveal_strlit("4");
            }
        },
        '5' => {
            s.append("5");
            proof {
                reveal_strlit("5");
            }
        },
        '6' => {
            s.append("6");
            proof {
                reveal_strlit("6");
            }
        },
        '7' => {
            s.append("7");
            proof {
                reveal_strlit("7");
            }
        },
        '8' => {
            s.append("8");
            proof {
                reveal_strlit("8");
            }
        },
        '9' => {
            s.append("9");
            proof {
                reveal_strlit("9");
            }
        },
        '-' => {
            s.append("-");
            proof {
                reveal_strlit("-");
            }
        },
        ',' => {
            s.append(",");
            proof {
                reveal_strlit(",");
            }
        },
        ' ' => {
            s.append(" ");
            proof {
                reveal_strlit(" ");
            }
        },
        '\r' => {
            s.append("\r");
            proof {
                reveal_strlit("\r");
            }
        },
        _ => {
            s.append("\n");
            proof {
                reveal_strlit("\n");
            }
        },
    }
}

proof fn lemma_digit_char_writable(d: int)
    requires
        0 <= d < 10,
    ensures
        writable(digit_char(d)),
        is_digit(digit_char(d)),
        digit_value(digit_char(d)) == d,
{
}

/// The decimal digits of `n`, most significant first.
pub fn digits_of(n: u64) -> (r: Vec<char>)
    ensures
        r@ == dec_nat(n as nat),
{
    let mut m: u64 = n;
    let mut acc: Vec<char> = Vec::new();
    while m >= 10
        invariant
            dec_nat(n as nat) == dec_nat(m as nat) + acc@,
        decreases m,
    {
        let d = m % 10;
        let c = char_of_digit(d);
        acc.insert(0, c);
        proof {
            assert(dec_nat(m as nat) == dec_nat((m / 10) as nat).push(digit_char(d as int)));
            assert(dec_nat(m as nat) + acc@.drop_first() =~= dec_nat((m / 10) as nat) + acc@);
        }
        m = m / 10;
    }
    let c = char_of_digit(m);
    acc.insert(0, c);
    proof {
        assert(dec_nat(n as nat) =~= acc@);
    }
    acc
}

/// The character of a decimal digit.
fn char_of_digit(d: u64) -> (c: char)
    requires
        d < 10,
    ensures
        c == digit_char(d as int),
        writable(c),
{
    let c = match d {
        0 => '0',
        1 => '1',
        2 => '2',
        3 => '3',
        4 => '4',
        5 => '5',
        6 => '6',
        7 => '7',
        8 => '8',
        _ => '9',
    };
    c
}

/// Appends characters of the text format.
pub fn push_chars(s: &mut String, cs: &Vec<char>)
    requires
        forall|j: int| 0 <= j < cs@.len() ==> writable(#[trigger] cs@[j]),
    ensures
        final(s)@ == old(s)@ + cs@,
{
    let n = cs.len();
    let mut i: usize = 0;
    while i < n
        invariant
            i <= n,
            n == cs@.len(),
            forall|j: int| 0 <= j < cs@.len() ==> writable(#[trigger] cs@[j]),
            s@ == old(s)@ + cs@.take(i as int),
        decreases n - i,
    {
        push_char(s, cs[i]);
        proof {
            assert(cs@.take(i + 1) =~= cs@.take(i as int).push(cs@[i as int]));
        }
        i = i + 1;
    }
    proof {
        assert(cs@.take(n as int) =~= cs@);
    }
}

proof fn lemma_dec_nat_writable(n: nat)
    ensures
        forall|j: int| 0 <= j < dec_nat(n).len() ==> is_digit(#[trigger] dec_nat(n)[j]),
    decreases n,
{
    if n >= 10 {
        lemma_dec_nat_writable(n / 10);
        lemma_digit_char_writable((n % 10) as int);
        let p = dec_nat(n / 10);
        assert forall|j: int| 0 <= j < dec_nat(n).len() implies is_digit(#[trigger] dec_nat(n)[j]) by {
            if j < p.len() {
                assert(dec_nat(n)[j] == p[j]);
            }
        }
    } else {
        lemma_digit_char_writable(n as int);
    }
}

/// Appends `n` in decimal.
pub fn append_u64(s: &mut String, n: u64)
    ensures
        final(s)@ == old(s)@ + dec_nat(n as nat),
{
    let ds = digits_of(n);
    proof {
        lemma_dec_nat_writable(n as nat);
    }
    push_chars(s, &ds);
}

/// Appends `x` in decimal, with a leading `-` when it is negative.
pub fn append_i64(s: &mut String, x: i64)
    ensures
        final(s)@ == old(s)@ + dec_int(x as int),
{
    if x < 0 {
        push_char(s, '-');
        let m: u64 = if x == i64::MIN {
            0x8000_0000_0000_0000u64
        } else {
            (-x) as u64
        };
        append_u64(s, m);
        proof {
            assert(s@ =~= old(s)@ + dec_int(x as int));
        }
    } else {
        append_u64(s, x as u64);
    }
}

/// Splitting at an occurrence of the separator splits the two sides apart.
pub proof fn lemma_split_concat(a: Seq<char>, b: Seq<char>, c: char)
    ensures
        split(a + seq![c] + b, c) == split(a, c) + split(b, c),
    decreases b.len(),
{
    lemma_split_len(a, c);
    if b.len() == 0 {
        assert(a + seq![c] + b =~= a.push(c));
        assert((a + seq![c] + b).drop_last() =~= a);
        assert(split(a, c) + split(b, c) =~= split(a, c).push(Seq::<char>::empty()));
    } else {
        let b1 = b.drop_last();
        let x = b.last();
        lemma_split_concat(a, b1, c);
        lemma_split_len(b1, c);
        assert((a + seq![c] + b).drop_last() =~= a + seq![c] + b1);
        assert((a + seq![c] + b).last() == x);
        let pa = split(a, c);
        let pb = split(b1, c);
        if x == c {
            assert((pa + pb).push(Seq::<char>::empty()) =~= pa + pb.push(Seq::<char>::empty()));
        } else {
            let pab = pa + pb;
            assert(pab.update(pab.len() - 1, pab.last().push(x)) =~= pa + pb.update(
                pb.len() - 1,
                pb.last().push(x),
            ));
        }
    }
}

/// A text without the separator is one piece.
pub proof fn lemma_split_none(s: Seq<char>, c: char)
    requires
        forall|j: int| 0 <= j < s.len() ==> #[trigger] s[j] != c,
    ensures
        split(s, c) == seq![s],
    decreases s.len(),
{
    if s.len() == 0 {
        assert(s =~= Seq::<char>::empty());
    } else {
        let s1 = s.drop_last();
        assert forall|j: int| 0 <= j < s1.len() implies #[trigger] s1[j] != c by {
            assert(s1[j] == s[j]);
        }
        lemma_split_none(s1, c);
        assert(s1.push(s.last()) =~= s);
        assert(seq![s1].update(0, s1.push(s.last())) =~= seq![s]);
    }
}

/// No piece holds the character `c`.
pub open spec fn pieces_avoid(ps: Seq<Seq<char>>, c: char) -> bool {
    forall|i: int, j: int| 0 <= i < ps.len() && 0 <= j < ps[i].len() ==> #[trigger] ps[i][j] != c
}

/// Splitting what was joined with a one-character separator gives back the
/// pieces, when no piece holds the separator.
pub proof fn lemma_split_join(ps: Seq<Seq<char>>, c: char)
    requires
        ps.len() >= 1,
        pieces_avoid(ps, c),
    ensures
        split(join(ps, seq![c]), c) == ps,
    decreases ps.len(),
{
    if ps.len() == 1 {
        assert forall|j: int| 0 <= j < ps[0].len() implies #[trigger] ps[0][j] != c by {
            assert(ps[0][j] != c);
        }
        lemma_split_none(ps[0], c);
        assert(seq![ps[0]] =~= ps);
    } else {
        let p1 = ps.drop_last();
        assert forall|i: int, j: int| 0 <= i < p1.len() && 0 <= j < p1[i].len() implies #[trigger] p1[i][j] != c by {
            assert(ps[i][j] != c);
        }
        lemma_split_join(p1, c);
        assert forall|j: int| 0 <= j < ps.last().len() implies #[trigger] ps.last()[j] != c by {
            assert(ps[ps.len() - 1][j] != c);
        }
        lemma_split_none(ps.last(), c);
        lemma_split_concat(join(p1, seq![c]), ps.last(), c);
        assert(p1 + seq![ps.last()] =~= ps);
    }
}

/// A text that starts and ends with a character that is no white space is its
/// own trim.
pub proof fn lemma_trim_solid(s: Seq<char>)
    requires
        s.len() > 0,
        !is_white(s[0]),
        !is_white(s.last()),
    ensures
        trim(s) == s,
{
}

/// Scanning the decimal digits of `n` gives `n`.
pub proof fn lemma_scan_dec(n: nat, bound: int, over: IntErrorKind)
    requires
        n <= bound,
    ensures
        scan_digits(dec_nat(n), bound, over) == Ok::<int, IntErrorKind>(n as int),
    decreases n,
{
    if n < 10 {
        let s = dec_nat(n);
        assert(s.drop_last() =~= Seq::<char>::empty());
    } else {
        lemma_scan_dec(n / 10, bound, over);
        let s = dec_nat(n);
        assert(s.drop_last() =~= dec_nat(n / 10));
        assert((n / 10) * 10 + n % 10 == n) by {
            vstd::arithmetic::div_mod::lemma_fundamental_div_mod(n as int, 10);
        }
    }
}

pub proof fn lemma_dec_nat_digits(n: nat)
    ensures
        dec_nat(n).len() > 0,
        forall|j: int| 0 <= j < dec_nat(n).len() ==> is_digit(#[trigger] dec_nat(n)[j]),
{
    lemma_dec_nat_writable(n);
    reveal_with_fuel(dec_nat, 2);
}

/// Reading the decimal form of a `u64` gives it back.
pub proof fn lemma_parse_dec_u64(n: u64)
    ensures
        parse_u64_spec(dec_nat(n as nat)) == Ok::<u64, IntErrorKind>(n),
{
    lemma_dec_nat_digits(n as nat);
    lemma_scan_dec(n as nat, u64::MAX as int, IntErrorKind::PosOverflow);
    assert(is_digit(dec_nat(n as nat)[0]));
}

/// Reading the decimal form of an `i64` gives it back.
pub proof fn lemma_parse_dec_i64(x: i64)
    ensures
        parse_i64_spec(dec_int(x as int)) == Ok::<i64, IntErrorKind>(x),
{
    if x < 0 {
        let m = (-x) as nat;
        lemma_dec_nat_digits(m);
        lemma_scan_dec(m, 0x8000_0000_0000_0000, IntErrorKind::NegOverflow);
        let s = dec_int(x as int);
        assert(s.drop_first() =~= dec_nat(m));
    } else {
        lemma_dec_nat_digits(x as nat);
        lemma_scan_dec(x as nat, i64::MAX as int, IntErrorKind::PosOverflow);
        assert(is_digit(dec_nat(x as nat)[0]));
    }
}

/// The last character of a join is that of its last piece, when that piece
/// is not empty.
pub proof fn lemma_join_last(ps: Seq<Seq<char>>, sep: Seq<char>)
    requires
        ps.len() >= 1,
        ps.last().len() > 0,
    ensures
        join(ps, sep).len() > 0,
        join(ps, sep).last() == ps.last().last(),
{
    if ps.len() > 1 {
        let j = join(ps, sep);
        assert(j == join(ps.drop_last(), sep) + sep + ps.last());
    }
}

/// A join holds a character only if a piece or the separator does.
pub proof fn lemma_join_avoids(ps: Seq<Seq<char>>, sep: Seq<char>, c: char)
    requires
        pieces_avoid(ps, c),
        forall|j: int| 0 <= j < sep.len() ==> #[trigger] sep[j] != c,
    ensures
        forall|j: int| 0 <= j < join(ps, sep).len() ==> #[trigger] join(ps, sep)[j] != c,
    decreases ps.len(),
{
    if ps.len() == 1 {
        assert forall|j: int| 0 <= j < join(ps, sep).len() implies #[trigger] join(ps, sep)[j] != c by {
            assert(ps[0][j] != c);
        }
    } else if ps.len() > 1 {
        let p1 = ps.drop_last();
        assert(pieces_avoid(p1, c)) by {
            assert forall|i: int, k: int| 0 <= i < p1.len() && 0 <= k < p1[i].len() implies #[trigger] p1[i][k] != c by {
                assert(ps[i][k] != c);
            }
        }
        lemma_join_avoids(p1, sep, c);
        let j1 = join(p1, sep);
        let j = join(ps, sep);
        assert(j == j1 + sep + ps.last());
        assert forall|k: int| 0 <= k < j.len() implies #[trigger] j[k] != c by {
            if k < j1.len() {
                assert(j[k] == j1[k]);
            } else if k < j1.len() + sep.len() {
                assert(j[k] == sep[k - j1.len()]);
            } else {
                assert(j[k] == ps.last()[k - j1.len() - sep.len()]);
                assert(ps[ps.len() - 1][k - j1.len() - sep.len()] != c);
            }
        }
    }
}

} // verus!
