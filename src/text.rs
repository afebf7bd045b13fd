//! The stored text form of a byte string: `[b0, b1, ...]` in decimal.
use vstd::prelude::*;
use vstd::string::StringExecFns;

verus! {

/// Scanner state over the inside of a byte list: bytes read so far, the value
/// and digit count of the number being read, and whether a space must follow
/// a comma.
pub type ScanState = (Seq<u8>, int, nat, bool);

/// The decimal value of a digit character.
pub open spec fn digit_value(c: char) -> int {
    c as int - '0' as int
}

/// One character of the list body: digits accumulate a number of at most 255,
/// `,` closes a non-empty number and must be followed by one space.
pub open spec fn scan_step(st: ScanState, c: char) -> Option<ScanState> {
    let (done, cur, digits, need_space) = st;
    if need_space {
        if c == ' ' {
            Some((done, cur, digits, false))
        } else {
            None
        }
    } else if '0' <= c && c <= '9' {
        let v = cur * 10 + digit_value(c);
        if v > 255 {
            None
        } else {
            Some((done, v, digits + 1, false))
        }
    } else if c == ',' && digits > 0 {
        Some((done.push(cur as u8), 0, 0, true))
    } else {
        None
    }
}

/// Scanning `q` onward from state `st`.
pub open spec fn scan_from(st: ScanState, q: Seq<char>) -> Option<ScanState>
    decreases q.len(),
{
    if q.len() == 0 {
        Some(st)
    } else {
        match scan_from(st, q.drop_last()) {
            None => None,
            Some(s2) => scan_step(s2, q.last()),
        }
    }
}

/// Scanning a whole list body from the start.
pub open spec fn scan(body: Seq<char>) -> Option<ScanState> {
    scan_from((Seq::empty(), 0, 0, false), body)
}

/// The end of a list body: an empty body is the empty list, otherwise the
/// body must end in a number.
pub open spec fn scan_finish(st: ScanState) -> Option<Seq<u8>> {
    let (done, cur, digits, need_space) = st;
    if need_space {
        None
    } else if digits > 0 {
        Some(done.push(cur as u8))
    } else if done.len() == 0 {
        Some(done)
    } else {
        None
    }
}

/// The bytes a list text stands for: `[`, a body of decimal numbers separated
/// by `, `, then `]`; `None` for any other text.
pub open spec fn parse_byte_list(s: Seq<char>) -> Option<Seq<u8>> {
    if s.len() >= 2 && s[0] == '[' && s.last() == ']' {
        match scan(s.subrange(1, s.len() - 1)) {
            None => None,
            Some(st) => scan_finish(st),
        }
    } else {
        None
    }
}

/// A body whose first `k` characters fail to scan fails as a whole.
proof fn lemma_scan_failure_persists(body: Seq<char>, k: int)
    requires
        0 <= k <= body.len(),
        scan(body.subrange(0, k)) is None,
    ensures
        scan(body) is None,
    decreases body.len() - k,
{
    if k < body.len() {
        assert(body.subrange(0, k + 1).drop_last() =~= body.subrange(0, k));
        lemma_scan_failure_persists(body, k + 1);
    } else {
        assert(body.subrange(0, k) =~= body);
    }
}

/// The character of a decimal digit.
pub open spec fn digit_char(d: int) -> char {
    if d == 0 { '0' } else if d == 1 { '1' } else if d == 2 { '2' } else if d == 3 { '3' }
    else if d == 4 { '4' } else if d == 5 { '5' } else if d == 6 { '6' } else if d == 7 { '7' }
    else if d == 8 { '8' } else { '9' }
}

/// The decimal digits of a number, without leading zeros.
pub open spec fn decimal(n: nat) -> Seq<char>
    decreases n,
{
    if n < 10 {
        seq![digit_char(n as int)]
    } else {
        decimal(n / 10).push(digit_char((n % 10) as int))
    }
}

/// The numbers of a byte string in decimal, separated by `, `.
pub open spec fn list_body(b: Seq<u8>) -> Seq<char>
    decreases b.len(),
{
    if b.len() == 0 {
        Seq::empty()
    } else if b.len() == 1 {
        decimal(b[0] as nat)
    } else {
        list_body(b.drop_last()) + seq![',', ' '] + decimal(b.last() as nat)
    }
}

/// The list text of a byte string: `[`, its numbers separated by `, `, `]`.
pub open spec fn byte_list_text(b: Seq<u8>) -> Seq<char> {
    seq!['['] + list_body(b) + seq![']']
}

/// Scanning a concatenation scans the first part, then the second.
proof fn lemma_scan_concat(st: ScanState, p: Seq<char>, q: Seq<char>)
    ensures
        scan_from(st, p + q) == match scan_from(st, p) {
            None => None,
            Some(s2) => scan_from(s2, q),
        },
    decreases q.len(),
{
    if q.len() == 0 {
        assert(p + q =~= p);
    } else {
        assert((p + q).drop_last() =~= p + q.drop_last());
        assert((p + q).last() == q.last());
        lemma_scan_concat(st, p, q.drop_last());
    }
}

/// A digit character reads back as its value.
proof fn lemma_digit_char(d: int)
    requires
        0 <= d < 10,
    ensures
        '0' <= digit_char(d) <= '9',
        digit_value(digit_char(d)) == d,
{
}

/// Scanning the decimal digits of a byte from a fresh number reads that byte.
proof fn lemma_scan_decimal(done: Seq<u8>, n: nat)
    requires
        n <= 255,
    ensures
        scan_from((done, 0, 0, false), decimal(n)) == Some::<ScanState>((done, n as int, decimal(n).len(), false)),
        decimal(n).len() > 0,
    decreases n,
{
    let st0: ScanState = (done, 0, 0, false);
    if n < 10 {
        lemma_digit_char(n as int);
        let q = seq![digit_char(n as int)];
        assert(q.drop_last() =~= Seq::<char>::empty());
        assert(scan_from(st0, q.drop_last()) == Some(st0));
        assert(q.last() == digit_char(n as int));
        assert(scan_step(st0, digit_char(n as int)) == Some::<ScanState>((done, n as int, 1, false)));
        assert(decimal(n) == q);
    } else {
        lemma_scan_decimal(done, n / 10);
        lemma_digit_char((n % 10) as int);
        let q = decimal(n);
        assert(q == decimal(n / 10).push(digit_char((n % 10) as int)));
        assert(q.drop_last() =~= decimal(n / 10));
        assert(q.last() == digit_char((n % 10) as int));
        assert((n / 10) as int * 10 + (n % 10) as int == n as int);
        let mid: ScanState = (done, (n / 10) as int, decimal(n / 10).len(), false);
        assert(scan_from(st0, q.drop_last()) == Some(mid));
        assert(scan_step(mid, digit_char((n % 10) as int)) == Some::<ScanState>((done, n as int, decimal(n / 10).len() + 1, false)));
    }
}

/// Scanning the body of a non-empty byte string ends inside its last number,
/// with every earlier byte read.
proof fn lemma_scan_list_body(b: Seq<u8>)
    requires
        b.len() > 0,
    ensures
        scan(list_body(b)) matches Some(st) && st.0 == b.drop_last() && st.1 == b.last() as int
            && st.2 > 0 && !st.3,
    decreases b.len(),
{
    let init: ScanState = (Seq::empty(), 0, 0, false);
    if b.len() == 1 {
        lemma_scan_decimal(Seq::empty(), b[0] as nat);
        assert(b.drop_last() =~= Seq::<u8>::empty());
    } else {
        let b0 = b.drop_last();
        lemma_scan_list_body(b0);
        let st = scan(list_body(b0))->0;
        let sep = seq![',', ' '];
        lemma_scan_concat(init, list_body(b0) + sep, decimal(b.last() as nat));
        lemma_scan_concat(init, list_body(b0), sep);
        assert(sep.drop_last() =~= seq![',']);
        assert(seq![','].drop_last() =~= Seq::<char>::empty());
        assert(b0.drop_last().push(b0.last()) =~= b0);
        assert(b0.drop_last().push(st.1 as u8) =~= b0);
        let after_comma: ScanState = (b0, 0, 0, true);
        let comma = seq![','];
        assert(comma.len() == 1 && comma.last() == ',');
        assert(scan_from(st, comma.drop_last()) == Some(st));
        assert(scan_from(st, comma) == scan_step(st, ','));
        assert(scan_step(st, ',') == Some(after_comma));
        assert(sep.last() == ' ');
        assert(scan_from(st, sep) == scan_step(after_comma, ' '));
        assert(scan_from(st, sep) == Some::<ScanState>((b0, 0, 0, false)));
        lemma_scan_decimal(b0, b.last() as nat);
    }
}

/// Reading back what was written: the list text of any byte string parses to
/// that byte string.
pub proof fn lemma_byte_list_round_trip(b: Seq<u8>)
    ensures
        parse_byte_list(byte_list_text(b)) == Some(b),
{
    let t = byte_list_text(b);
    assert(t.subrange(1, t.len() - 1) =~= list_body(b));
    if b.len() == 0 {
        assert(list_body(b) =~= Seq::<char>::empty());
        assert(b =~= Seq::<u8>::empty());
    } else {
        lemma_scan_list_body(b);
        assert(b.drop_last().push(b.last()) =~= b);
    }
}

/// The one-character text of a decimal digit.
fn digit_text(d: u8) -> (r: &'static str)
    requires
        d < 10,
    ensures
        r@ == seq![digit_char(d as int)],
{
    if d == 0 {
        let t = "0";
        proof {
            reveal_strlit("0");
            assert(t@ =~= seq![digit_char(0)]);
        }
        t
    } else if d == 1 {
        let t = "1";
        proof {
            reveal_strlit("1");
            assert(t@ =~= seq![digit_char(1)]);
        }
        t
    } else if d == 2 {
        let t = "2";
        proof {
            reveal_strlit("2");
            assert(t@ =~= seq![digit_char(2)]);
        }
        t
    } else if d == 3 {
        let t = "3";
        proof {
            reveal_strlit("3");
            assert(t@ =~= seq![digit_char(3)]);
        }
        t
    } else if d == 4 {
        let t = "4";
        proof {
            reveal_strlit("4");
            assert(t@ =~= seq![digit_char(4)]);
        }
        t
    } else if d == 5 {
        let t = "5";
        proof {
            reveal_strlit("5");
            assert(t@ =~= seq![digit_char(5)]);
        }
        t
    } else if d == 6 {
        let t = "6";
        proof {
            reveal_strlit("6");
            assert(t@ =~= seq![digit_char(6)]);
        }
        t
    } else if d == 7 {
        let t = "7";
        proof {
            reveal_strlit("7");
            assert(t@ =~= seq![digit_char(7)]);
        }
        t
    } else if d == 8 {
        let t = "8";
        proof {
            reveal_strlit("8");
            assert(t@ =~= seq![digit_char(8)]);
        }
        t
    } else {
        let t = "9";
        proof {
            reveal_strlit("9");
            assert(t@ =~= seq![digit_char(9)]);
        }
        t
    }
}

/// Appends the decimal digits of `n`.
fn append_decimal(out: &mut String, n: u8)
    ensures
        final(out)@ == old(out)@ + decimal(n as nat),
{
    let ghost n0 = n as nat;
    if n >= 100 {
        out.append(digit_text(n / 100));
        out.append(digit_text((n / 10) % 10));
        out.append(digit_text(n % 10));
        proof {
            assert(n0 / 10 / 10 == n0 / 100);
            assert(decimal(n0 / 100) == seq![digit_char((n0 / 100) as int)]);
            assert(decimal(n0 / 10) == decimal(n0 / 100).push(digit_char((n0 / 10 % 10) as int)));
            assert(decimal(n0) == decimal(n0 / 10).push(digit_char((n0 % 10) as int)));
            assert(final(out)@ =~= old(out)@ + decimal(n0));
        }
    } else if n >= 10 {
        out.append(digit_text(n / 10));
        out.append(digit_text(n % 10));
        proof {
            assert(decimal(n0 / 10) == seq![digit_char((n0 / 10) as int)]);
            assert(decimal(n0) == decimal(n0 / 10).push(digit_char((n0 % 10) as int)));
            assert(final(out)@ =~= old(out)@ + decimal(n0));
        }
    } else {
        out.append(digit_text(n));
    }
}

/// Writes a byte string as its list text, such as `[104, 105]`.
pub fn to_byte_list_text(b: &[u8]) -> (r: String)
    ensures
        r@ == byte_list_text(b@),
{
    let open = "[";
    proof {
        reveal_strlit("[");
        assert(open@ =~= seq!['[']);
    }
    let mut out = open.to_owned();
    let mut i: usize = 0;
    proof {
        assert(list_body(b@.subrange(0, 0)) =~= Seq::<char>::empty());
        assert(out@ =~= seq!['['] + list_body(b@.subrange(0, 0)));
    }
    while i < b.len()
        invariant
            i <= b@.len(),
            out@ == seq!['['] + list_body(b@.subrange(0, i as int)),
        decreases b@.len() - i,
    {
        let ghost before = out@;
        let ghost prefix = b@.subrange(0, i as int);
        let ghost next = b@.subrange(0, i + 1);
        proof {
            assert(next.drop_last() =~= prefix);
            assert(next.last() == b@[i as int]);
        }
        if i > 0 {
            let sep = ", ";
            proof {
                reveal_strlit(", ");
                assert(sep@ =~= seq![',', ' ']);
            }
            out.append(sep);
            append_decimal(&mut out, b[i]);
            proof {
                assert(out@ =~= seq!['['] + list_body(next));
            }
        } else {
            append_decimal(&mut out, b[i]);
            proof {
                assert(next =~= seq![b@[0]]);
                assert(out@ =~= seq!['['] + list_body(next));
            }
        }
        i = i + 1;
    }
    let close = "]";
    proof {
        reveal_strlit("]");
        assert(close@ =~= seq![']']);
        assert(b@.subrange(0, i as int) =~= b@);
    }
    out.append(close);
    proof {
        assert(out@ =~= byte_list_text(b@));
    }
    out
}

/// The characters of a text, one by one.
pub fn chars_of(s: &str) -> (r: Vec<char>)
    ensures
        r@ == s@,
{
    let len = s.unicode_len();
    let mut out: Vec<char> = Vec::new();
    let mut i: usize = 0;
    while i < len
        invariant
            len == s@.len(),
            i <= len,
            out@ == s@.subrange(0, i as int),
        decreases len - i,
    {
        out.push(s.get_char(i));
        proof {
            assert(out@ =~= s@.subrange(0, i + 1));
        }
        i = i + 1;
    }
    proof {
        assert(out@ =~= s@);
    }
    out
}

/// Reads back a byte string from its list text, such as `[104, 105]`.
pub fn back_to_vec(s: &str) -> (r: Option<Vec<u8>>)
    ensures
        match parse_byte_list(s@) {
            Some(b) => r matches Some(v) && v@ == b,
            None => r is None,
        },
{
    let cs = chars_of(s);
    let n = cs.len();
    if n < 2 || cs[0] != '[' || cs[n - 1] != ']' {
        return None;
    }
    let ghost body = s@.subrange(1, n - 1);
    let mut done: Vec<u8> = Vec::new();
    let mut cur: u32 = 0;
    let mut digits: usize = 0;
    let mut need_space = false;
    let mut i: usize = 1;
    proof {
        assert(body.subrange(0, 0) =~= Seq::<char>::empty());
    }
    while i < n - 1
        invariant
            cs@ == s@,
            n == s@.len(),
            n >= 2,
            body == s@.subrange(1, n - 1),
            1 <= i <= n - 1,
            cur <= 255,
            digits <= i,
            scan(body.subrange(0, i - 1)) == Some::<ScanState>((done@, cur as int, digits as nat, need_space)),
        decreases n - i,
    {
        let c = cs[i];
        proof {
            assert(body.subrange(0, i as int).drop_last() =~= body.subrange(0, i - 1));
            assert(body.subrange(0, i as int).last() == c);
        }
        if need_space {
            if c != ' ' {
                proof {
                    lemma_scan_failure_persists(body, i as int);
                }
                return None;
            }
            need_space = false;
        } else if '0' <= c && c <= '9' {
            let d = (c as u32) - ('0' as u32);
            let v = cur * 10 + d;
            if v > 255 {
                proof {
                    lemma_scan_failure_persists(body, i as int);
                }
                return None;
            }
            cur = v;
            digits = digits + 1;
        } else if c == ',' && digits > 0 {
            done.push(cur as u8);
            cur = 0;
            digits = 0;
            need_space = true;
        } else {
            proof {
                lemma_scan_failure_persists(body, i as int);
            }
            return None;
        }
        i = i + 1;
    }
    proof {
        assert(body.subrange(0, i - 1) =~= body);
    }
    if need_space {
        None
    } else if digits > 0 {
        done.push(cur as u8);
        Some(done)
    } else if done.len() == 0 {
        Some(done)
    } else {
        None
    }
}

} // verus!
