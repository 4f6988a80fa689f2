//! The CIDR value type: four address octets and a prefix length, with
//! textual parsing and canonical rendering.

use vstd::prelude::*;

verus! {

/// A CIDR block: four address octets (read in big-endian order as one
/// 32-bit address) and a prefix length. A well-formed block has a prefix
/// length of at most 32; host bits beyond the prefix need not be zero.
#[derive(Clone, Copy, PartialEq, Eq, Debug)]
pub struct Cidr {
    pub addr: [u8; 4],
    pub mask: u8,
}

impl Cidr {
    /// The one invariant of the type: the prefix length is in range.
    pub open spec fn well_formed(self) -> bool {
        self.mask <= 32
    }
}

/// The error reported for text that does not match the CIDR grammar or
/// holds an out-of-range octet or prefix length.
#[derive(Clone, Copy, PartialEq, Eq, Structural, Debug)]
pub enum ParseError {
    InvalidFormat,
}

pub open spec fn is_digit(c: char) -> bool {
    '0' <= c && c <= '9'
}

pub open spec fn digit_val(c: char) -> int {
    c as int - '0' as int
}

pub open spec fn all_digits(s: Seq<char>) -> bool {
    forall|i: int| 0 <= i < s.len() ==> is_digit(#[trigger] s[i])
}

/// The numeric value of a sequence of decimal digits, most significant
/// first; 0 for the empty sequence.
pub open spec fn digits_val(s: Seq<char>) -> int
    decreases s.len(),
{
    if s.len() == 0 {
        0
    } else {
        digits_val(s.drop_last()) * 10 + digit_val(s.last())
    }
}

/// The length of the longest run of decimal digits at the head of `s`.
pub open spec fn digit_run_len(s: Seq<char>) -> int
    decreases s.len(),
{
    if s.len() == 0 || !is_digit(s[0]) {
        0
    } else {
        1 + digit_run_len(s.skip(1))
    }
}

/// One group of one to three digits with value at most 255, followed by
/// the separator `sep`: on a match, the group's value and the text after
/// the separator.
pub open spec fn parse_octet_group(s: Seq<char>, sep: char) -> Option<(int, Seq<char>)> {
    let k = digit_run_len(s);
    if 1 <= k <= 3 && digits_val(s.take(k)) <= 255 && k < s.len() && s[k] == sep {
        Some((digits_val(s.take(k)), s.skip(k + 1)))
    } else {
        None
    }
}

/// A prefix length group: one or two digits, no leading zero, value at
/// most 32.
pub open spec fn valid_prefix_group(s: Seq<char>) -> bool {
    &&& 1 <= s.len() <= 2
    &&& all_digits(s)
    &&& digits_val(s) <= 32
    &&& (s.len() == 2 ==> s[0] != '0')
}

/// The CIDR grammar: four dot-separated groups of one to three digits,
/// each valued at most 255, then a slash and a prefix length of 0 to 32
/// written without a leading zero. Octet groups may carry leading zeros.
pub open spec fn parse_spec(s: Seq<char>) -> Option<Cidr> {
    match parse_octet_group(s, '.') {
        Option::None => Option::None,
        Option::Some((o0, s1)) => match parse_octet_group(s1, '.') {
            Option::None => Option::None,
            Option::Some((o1, s2)) => match parse_octet_group(s2, '.') {
                Option::None => Option::None,
                Option::Some((o2, s3)) => match parse_octet_group(s3, '/') {
                    Option::None => Option::None,
                    Option::Some((o3, sp)) => if valid_prefix_group(sp) {
                        Option::Some(
                            Cidr {
                                addr: [o0 as u8, o1 as u8, o2 as u8, o3 as u8],
                                mask: digits_val(sp) as u8,
                            },
                        )
                    } else {
                        Option::None
                    },
                },
            },
        },
    }
}

/// Decides `is_digit` on a character.
fn is_digit_exec(c: char) -> (r: bool)
    ensures
        r == is_digit(c),
{
    let u = c as u32;
    ('0' as u32) <= u && u <= ('9' as u32)
}

/// The numeric value of a digit character.
fn digit_value(c: char) -> (d: u8)
    requires
        is_digit(c),
    ensures
        d as int == digit_val(c),
        d <= 9,
{
    ((c as u32) - ('0' as u32)) as u8
}

/// The first position at or after `from` that does not hold a digit, or
/// the text's length when digits run to its end.
fn scan_digits(s: &str, from: usize) -> (j: usize)
    requires
        from as int <= s@.len(),
    ensures
        from <= j,
        j as int <= s@.len(),
        forall|p: int| from as int <= p < j as int ==> is_digit(#[trigger] s@[p]),
        (j as int) < s@.len() ==> !is_digit(s@[j as int]),
{
    let n = s.unicode_len();
    let mut j = from;
    while j < n
        invariant
            from <= j <= n,
            n as int == s@.len(),
            forall|p: int| from as int <= p < j as int ==> is_digit(#[trigger] s@[p]),
        decreases n - j,
    {
        if !is_digit_exec(s.get_char(j)) {
            return j;
        }
        j = j + 1;
    }
    j
}

/// A head run of `k` digits followed by a non-digit (or the end) is the
/// longest head run.
proof fn lemma_digit_run_len_is(t: Seq<char>, k: int)
    requires
        0 <= k <= t.len(),
        forall|p: int| 0 <= p < k ==> is_digit(#[trigger] t[p]),
        k < t.len() ==> !is_digit(t[k]),
    ensures
        digit_run_len(t) == k,
    decreases t.len(),
{
    if t.len() != 0 && is_digit(t[0]) {
        assert(k > 0);
        lemma_digit_run_len_is(t.skip(1), k - 1);
    }
}

/// The value of the digits at positions `from .. from + k`.
fn group_value(s: &str, from: usize, k: usize) -> (v: u16)
    requires
        1 <= k <= 3,
        s@.len() <= usize::MAX as int,
        from as int + k as int <= s@.len(),
        forall|p: int| from as int <= p < from as int + k as int ==> is_digit(#[trigger] s@[p]),
    ensures
        v as int == digits_val(s@.subrange(from as int, from as int + k as int)),
        v < 1000,
{
    let ghost g = s@.subrange(from as int, from as int + k as int);
    let d0 = digit_value(s.get_char(from));
    if k == 1 {
        proof {
            assert(g.drop_last() =~= Seq::<char>::empty());
            assert(g.last() == s@[from as int]);
            assert(digits_val(g.drop_last()) == 0);
            assert(digits_val(g) == digit_val(s@[from as int]));
        }
        d0 as u16
    } else if k == 2 {
        let d1 = digit_value(s.get_char(from + 1));
        proof {
            let g1 = g.drop_last();
            assert(g1 =~= s@.subrange(from as int, from as int + 1));
            assert(g1.drop_last() =~= Seq::<char>::empty());
            assert(g1.last() == s@[from as int]);
            assert(g.last() == s@[from as int + 1]);
            assert(digits_val(g1.drop_last()) == 0);
            assert(digits_val(g1) == digit_val(s@[from as int]));
            assert(digits_val(g) == digits_val(g1) * 10 + digit_val(s@[from as int + 1]));
        }
        (d0 as u16) * 10 + (d1 as u16)
    } else {
        let d1 = digit_value(s.get_char(from + 1));
        let d2 = digit_value(s.get_char(from + 2));
        proof {
            let g1 = g.drop_last();
            let g2 = g1.drop_last();
            assert(g1 =~= s@.subrange(from as int, from as int + 2));
            assert(g2 =~= s@.subrange(from as int, from as int + 1));
            assert(g2.drop_last() =~= Seq::<char>::empty());
            assert(g2.last() == s@[from as int]);
            assert(g1.last() == s@[from as int + 1]);
            assert(g.last() == s@[from as int + 2]);
            assert(digits_val(g2.drop_last()) == 0);
            assert(digits_val(g2) == digit_val(s@[from as int]));
            assert(digits_val(g1) == digits_val(g2) * 10 + digit_val(s@[from as int + 1]));
            assert(digits_val(g) == digits_val(g1) * 10 + digit_val(s@[from as int + 2]));
        }
        (d0 as u16) * 100 + (d1 as u16) * 10 + (d2 as u16)
    }
}

/// Reads one octet group and its separator starting at `from`: the
/// group's value and the position after the separator, or `None` where
/// `parse_octet_group` has no match.
fn take_group(s: &str, from: usize, sep: char) -> (res: Option<(u8, usize)>)
    requires
        from as int <= s@.len(),
    ensures
        match res {
            Option::Some((v, next)) => {
                &&& parse_octet_group(s@.skip(from as int), sep) == Option::Some(
                    (v as int, s@.skip(next as int)),
                )
                &&& from < next
                &&& next as int <= s@.len()
            },
            Option::None => parse_octet_group(s@.skip(from as int), sep) is None,
        },
{
    let ghost t = s@.skip(from as int);
    let n = s.unicode_len();
    let j = scan_digits(s, from);
    let k = j - from;
    proof {
        assert(t.len() == s@.len() - from as int);
        assert(forall|p: int| 0 <= p < t.len() ==> #[trigger] t[p] == s@[from as int + p]);
        lemma_digit_run_len_is(t, k as int);
    }
    if k < 1 || k > 3 {
        return Option::None;
    }
    let v = group_value(s, from, k);
    proof {
        assert(t.take(k as int) =~= s@.subrange(from as int, from as int + k as int));
    }
    if v > 255 {
        return Option::None;
    }
    if j >= n {
        return Option::None;
    }
    let ch = s.get_char(j);
    if ch != sep {
        return Option::None;
    }
    proof {
        assert(t[k as int] == s@[j as int]);
        assert(t.skip(k as int + 1) =~= s@.skip(j as int + 1));
    }
    Option::Some((v as u8, j + 1))
}

/// Reads the prefix length group that runs from `from` to the end of the
/// text, or `None` where that tail is no valid prefix group.
fn take_prefix(s: &str, from: usize) -> (res: Option<u8>)
    requires
        from as int <= s@.len(),
    ensures
        match res {
            Option::Some(m) => {
                &&& valid_prefix_group(s@.skip(from as int))
                &&& m as int == digits_val(s@.skip(from as int))
                &&& m <= 32
            },
            Option::None => !valid_prefix_group(s@.skip(from as int)),
        },
{
    let ghost sp = s@.skip(from as int);
    let n = s.unicode_len();
    let j = scan_digits(s, from);
    let k = j - from;
    proof {
        assert(sp.len() == s@.len() - from as int);
        assert(forall|p: int| 0 <= p < sp.len() ==> #[trigger] sp[p] == s@[from as int + p]);
    }
    if j != n {
        // a non-digit stands inside the prefix group
        proof {
            assert(!is_digit(sp[k as int]));
        }
        return Option::None;
    }
    if k < 1 || k > 2 {
        return Option::None;
    }
    let m = group_value(s, from, k);
    proof {
        assert(sp =~= s@.subrange(from as int, from as int + k as int));
    }
    if m > 32 {
        return Option::None;
    }
    if k == 2 {
        let lead = s.get_char(from);
        if lead == '0' {
            return Option::None;
        }
    }
    Option::Some(m as u8)
}

impl Cidr {
    /// Parses CIDR text of the form `"{o0}.{o1}.{o2}.{o3}/{mask}"`:
    /// four dot-separated decimal octet groups of one to three digits,
    /// each valued 0 to 255, then a slash and a prefix length of 0 to 32.
    /// Returns `Ok` exactly on text the grammar accepts, and
    /// `Err(ParseError::InvalidFormat)` on all other text, a missing
    /// prefix length included.
    #[verifier::rlimit(60)]
    pub fn new(cidr_str: &str) -> (r: Result<Cidr, ParseError>)
        ensures
            match r {
                Result::Ok(c) => parse_spec(cidr_str@) == Option::Some(c) && c.well_formed(),
                Result::Err(e) => parse_spec(cidr_str@) is None && e == ParseError::InvalidFormat,
            },
    {
        proof {
            assert(cidr_str@.skip(0) =~= cidr_str@);
        }
        let (o0, i1) = match take_group(cidr_str, 0, '.') {
            Option::Some(g) => g,
            Option::None => {
                return Result::Err(ParseError::InvalidFormat);
            },
        };
        let (o1, i2) = match take_group(cidr_str, i1, '.') {
            Option::Some(g) => g,
            Option::None => {
                return Result::Err(ParseError::InvalidFormat);
            },
        };
        let (o2, i3) = match take_group(cidr_str, i2, '.') {
            Option::Some(g) => g,
            Option::None => {
                return Result::Err(ParseError::InvalidFormat);
            },
        };
        let (o3, i4) = match take_group(cidr_str, i3, '/') {
            Option::Some(g) => g,
            Option::None => {
                return Result::Err(ParseError::InvalidFormat);
            },
        };
        let m = match take_prefix(cidr_str, i4) {
            Option::Some(m) => m,
            Option::None => {
                return Result::Err(ParseError::InvalidFormat);
            },
        };
        Result::Ok(Cidr { addr: [o0, o1, o2, o3], mask: m })
    }
}

/// The character of one decimal digit.
pub open spec fn digit_char(d: int) -> char
    recommends
        0 <= d <= 9,
{
    if d == 0 {
        '0'
    } else if d == 1 {
        '1'
    } else if d == 2 {
        '2'
    } else if d == 3 {
        '3'
    } else if d == 4 {
        '4'
    } else if d == 5 {
        '5'
    } else if d == 6 {
        '6'
    } else if d == 7 {
        '7'
    } else if d == 8 {
        '8'
    } else {
        '9'
    }
}

/// The shortest decimal writing of `n`, for `n` up to 255: one to three
/// digits, no leading zero.
pub open spec fn dec_digits(n: int) -> Seq<char>
    recommends
        0 <= n <= 255,
{
    if n <= 9 {
        seq![digit_char(n)]
    } else if n <= 99 {
        seq![digit_char(n / 10), digit_char(n % 10)]
    } else {
        seq![digit_char(n / 100), digit_char((n / 10) % 10), digit_char(n % 10)]
    }
}

/// The canonical text of a block: unpadded decimal octets separated by
/// dots, a slash, and the unpadded decimal prefix length.
pub open spec fn render_spec(c: Cidr) -> Seq<char> {
    dec_digits(c.addr[0] as int) + seq!['.'] + dec_digits(c.addr[1] as int) + seq!['.']
        + dec_digits(c.addr[2] as int) + seq!['.'] + dec_digits(c.addr[3] as int) + seq!['/']
        + dec_digits(c.mask as int)
}

/// The decimal writing of `n` is one to three digit characters, carries
/// no leading zero (a lone zero digit stands for zero itself), and reads
/// back as `n`; values up to 99 take at most two digits.
pub proof fn lemma_dec_digits_canonical(n: int)
    requires
        0 <= n <= 255,
    ensures
        1 <= dec_digits(n).len() <= 3,
        all_digits(dec_digits(n)),
        digits_val(dec_digits(n)) == n,
        n <= 9 ==> dec_digits(n).len() == 1,
        n <= 99 ==> dec_digits(n).len() <= 2,
        n >= 10 ==> dec_digits(n)[0] != '0',
{
    let s = dec_digits(n);
    if n <= 9 {
        assert(s.drop_last() =~= Seq::<char>::empty());
        assert(digits_val(s.drop_last()) == 0);
        assert(digits_val(s) == digit_val(digit_char(n)));
    } else if n <= 99 {
        let s1 = s.drop_last();
        assert(s1 =~= seq![digit_char(n / 10)]);
        assert(s1.drop_last() =~= Seq::<char>::empty());
        assert(digits_val(s1.drop_last()) == 0);
        assert(digits_val(s1) == digit_val(digit_char(n / 10)));
        assert(digits_val(s) == digits_val(s1) * 10 + digit_val(digit_char(n % 10)));
        assert(n == (n / 10) * 10 + n % 10);
        assert(1 <= n / 10 <= 9);
    } else {
        let s1 = s.drop_last();
        let s2 = s1.drop_last();
        assert(s1 =~= seq![digit_char(n / 100), digit_char((n / 10) % 10)]);
        assert(s2 =~= seq![digit_char(n / 100)]);
        assert(s2.drop_last() =~= Seq::<char>::empty());
        assert(digits_val(s2.drop_last()) == 0);
        assert(digits_val(s2) == digit_val(digit_char(n / 100)));
        assert(digits_val(s1) == digits_val(s2) * 10 + digit_val(digit_char((n / 10) % 10)));
        assert(digits_val(s) == digits_val(s1) * 10 + digit_val(digit_char(n % 10)));
        assert(1 <= n / 100 <= 2);
        assert(n / 10 / 10 == n / 100) by (nonlinear_arith)
            requires
                n >= 100,
        ;
        assert(n / 10 == (n / 10 / 10) * 10 + (n / 10) % 10);
        assert(n == (n / 10) * 10 + n % 10);
    }
}

/// Appends the character of one digit to `out`.
fn append_digit(out: &mut String, d: u8)
    requires
        d <= 9,
    ensures
        final(out)@ == old(out)@ + seq![digit_char(d as int)],
{
    match d {
        0 => {
            out.append("0");
            proof {
                reveal_strlit("0");
                assert(("0")@ =~= seq![digit_char(0)]);
            }
        },
        1 => {
            out.append("1");
            proof {
                reveal_strlit("1");
                assert(("1")@ =~= seq![digit_char(1)]);
            }
        },
        2 => {
            out.append("2");
            proof {
                reveal_strlit("2");
                assert(("2")@ =~= seq![digit_char(2)]);
            }
        },
        3 => {
            out.append("3");
            proof {
                reveal_strlit("3");
                assert(("3")@ =~= seq![digit_char(3)]);
            }
        },
        4 => {
            out.append("4");
            proof {
                reveal_strlit("4");
                assert(("4")@ =~= seq![digit_char(4)]);
            }
        },
        5 => {
            out.append("5");
            proof {
                reveal_strlit("5");
                assert(("5")@ =~= seq![digit_char(5)]);
            }
        },
        6 => {
            out.append("6");
            proof {
                reveal_strlit("6");
                assert(("6")@ =~= seq![digit_char(6)]);
            }
        },
        7 => {
            out.append("7");
            proof {
                reveal_strlit("7");
                assert(("7")@ =~= seq![digit_char(7)]);
            }
        },
        8 => {
            out.append("8");
            proof {
                reveal_strlit("8");
                assert(("8")@ =~= seq![digit_char(8)]);
            }
        },
        _ => {
            out.append("9");
            proof {
                reveal_strlit("9");
                assert(("9")@ =~= seq![digit_char(9)]);
            }
        },
    }
}

/// Appends the unpadded decimal writing of `n` to `out`.
fn append_dec(out: &mut String, n: u8)
    ensures
        final(out)@ == old(out)@ + dec_digits(n as int),
{
    let ghost start = out@;
    if n >= 100 {
        append_digit(out, n / 100);
        append_digit(out, (n / 10) % 10);
        append_digit(out, n % 10);
        proof {
            assert(out@ =~= start + dec_digits(n as int));
        }
    } else if n >= 10 {
        append_digit(out, n / 10);
        append_digit(out, n % 10);
        proof {
            assert(out@ =~= start + dec_digits(n as int));
        }
    } else {
        append_digit(out, n);
        proof {
            assert(out@ =~= start + dec_digits(n as int));
        }
    }
}

impl Cidr {
    /// Renders the block as `"{o0}.{o1}.{o2}.{o3}/{mask}"`: unpadded
    /// decimal octets and prefix length, no leading zeros.
    pub fn render(&self) -> (r: String)
        ensures
            r@ == render_spec(*self),
    {
        let mut out = String::new();
        append_dec(&mut out, self.addr[0]);
        out.append(".");
        append_dec(&mut out, self.addr[1]);
        out.append(".");
        append_dec(&mut out, self.addr[2]);
        out.append(".");
        append_dec(&mut out, self.addr[3]);
        out.append("/");
        append_dec(&mut out, self.mask);
        proof {
            reveal_strlit(".");
            reveal_strlit("/");
            assert((".")@ =~= seq!['.']);
            assert(("/")@ =~= seq!['/']);
            assert(out@ =~= render_spec(*self));
        }
        out
    }
}

/// A head of digits followed by anything that does not start with a digit
/// is the longest head digit run.
proof fn lemma_digit_run_of_concat(a: Seq<char>, rest: Seq<char>)
    requires
        all_digits(a),
        rest.len() > 0,
        !is_digit(rest[0]),
    ensures
        digit_run_len(a + rest) == a.len(),
{
    let s = a + rest;
    assert(forall|p: int| 0 <= p < a.len() ==> #[trigger] s[p] == a[p]);
    assert(s[a.len() as int] == rest[0]);
    lemma_digit_run_len_is(s, a.len() as int);
}

/// An octet group written before its separator parses back to its value,
/// leaving exactly the text after the separator.
proof fn lemma_parse_group_of_concat(a: Seq<char>, sep: char, rest: Seq<char>)
    requires
        1 <= a.len() <= 3,
        all_digits(a),
        digits_val(a) <= 255,
        !is_digit(sep),
    ensures
        parse_octet_group(a + seq![sep] + rest, sep) == Option::Some((digits_val(a), rest)),
{
    let s = a + seq![sep] + rest;
    let tail = seq![sep] + rest;
    assert(s =~= a + tail);
    assert(tail[0] == sep);
    lemma_digit_run_of_concat(a, tail);
    assert(s.take(a.len() as int) =~= a);
    assert(s[a.len() as int] == sep);
    assert(s.skip(a.len() as int + 1) =~= rest);
}

/// Round-trip law: parsing the canonical rendering of any well-formed
/// block gives that block back.
#[verifier::rlimit(100)]
pub proof fn lemma_parse_render_round_trip(c: Cidr)
    requires
        c.well_formed(),
    ensures
        parse_spec(render_spec(c)) == Option::Some(c),
{
    let d0 = dec_digits(c.addr[0] as int);
    let d1 = dec_digits(c.addr[1] as int);
    let d2 = dec_digits(c.addr[2] as int);
    let d3 = dec_digits(c.addr[3] as int);
    let dm = dec_digits(c.mask as int);
    lemma_dec_digits_canonical(c.addr[0] as int);
    lemma_dec_digits_canonical(c.addr[1] as int);
    lemma_dec_digits_canonical(c.addr[2] as int);
    lemma_dec_digits_canonical(c.addr[3] as int);
    lemma_dec_digits_canonical(c.mask as int);
    let s = render_spec(c);
    let r1 = d1 + seq!['.'] + d2 + seq!['.'] + d3 + seq!['/'] + dm;
    let r2 = d2 + seq!['.'] + d3 + seq!['/'] + dm;
    let r3 = d3 + seq!['/'] + dm;
    assert(s =~= d0 + seq!['.'] + r1);
    assert(r1 =~= d1 + seq!['.'] + r2);
    assert(r2 =~= d2 + seq!['.'] + r3);
    lemma_parse_group_of_concat(d0, '.', r1);
    lemma_parse_group_of_concat(d1, '.', r2);
    lemma_parse_group_of_concat(d2, '.', r3);
    lemma_parse_group_of_concat(d3, '/', dm);
    assert(valid_prefix_group(dm));
    let arr = [c.addr[0], c.addr[1], c.addr[2], c.addr[3]];
    assert(arr@ =~= c.addr@);
    assert(arr =~= c.addr);
    assert(parse_spec(s) == Option::Some(Cidr { addr: arr, mask: c.mask }));
}

} // verus!
