//! The replay format: one inbound order per line, fields between commas.
//!
//! ```text
//! ADD,<order_id>,<B|A>,LIMIT,<price>,<qty>
//! ADD,<order_id>,<B|A>,MARKET,<qty>
//! CANCEL,<order_id>
//! ```
use vstd::prelude::*;
use vstd::string::StringSliceAdditionalSpecFns;
use crate::text::{decimal, digit_char, u64_text};
use crate::orders::{
    IncomingCancelOrder, IncomingLimitOrder, IncomingMarketOrder, IncomingOrder, IncomingSide,
};

verus! {

/// The byte of a comma.
pub const COMMA: u8 = 44;

/// The byte of a plus sign.
pub const PLUS: u8 = 43;

/// The fields of a line: the pieces between its commas, in order. A line
/// without a comma is one field.
pub open spec fn fields(s: Seq<u8>) -> Seq<Seq<u8>>
    decreases s.len(),
{
    if s.len() == 0 {
        seq![Seq::empty()]
    } else {
        let f = fields(s.drop_last());
        if s.last() == COMMA {
            f.push(Seq::empty())
        } else {
            f.update(f.len() - 1, f.last().push(s.last()))
        }
    }
}

/// Whether a byte is an ASCII decimal digit.
pub open spec fn is_digit(b: u8) -> bool {
    48 <= b <= 57
}

/// The value of a string of decimal digits.
pub open spec fn digits_value(s: Seq<u8>) -> nat
    decreases s.len(),
{
    if s.len() == 0 {
        0
    } else {
        digits_value(s.drop_last()) * 10 + (s.last() - 48) as nat
    }
}

/// A field without its leading `+`, if it has one.
pub open spec fn unsigned_digits(s: Seq<u8>) -> Seq<u8> {
    if s.len() > 0 && s[0] == PLUS {
        s.subrange(1, s.len() as int)
    } else {
        s
    }
}

/// Whether every byte is a decimal digit.
pub open spec fn all_digits(d: Seq<u8>) -> bool {
    forall|i: int| 0 <= i < d.len() ==> is_digit(#[trigger] d[i])
}

/// The number a field spells: an optional `+` and then one or more decimal
/// digits, as `str::parse` reads an unsigned integer.
pub open spec fn parse_decimal(s: Seq<u8>) -> Option<nat> {
    let d = unsigned_digits(s);
    if d.len() > 0 && all_digits(d) {
        Some(digits_value(d))
    } else {
        None
    }
}

/// A field read as a `u64`, if it spells one that fits.
pub open spec fn parse_u64(s: Seq<u8>) -> Option<u64> {
    match parse_decimal(s) {
        Some(n) => if n <= u64::MAX {
            Some(n as u64)
        } else {
            None
        },
        None => None,
    }
}

/// A field read as a `u32`, if it spells one that fits.
pub open spec fn parse_u32(s: Seq<u8>) -> Option<u32> {
    match parse_decimal(s) {
        Some(n) => if n <= u32::MAX {
            Some(n as u32)
        } else {
            None
        },
        None => None,
    }
}

/// `ADD`.
pub open spec fn word_add() -> Seq<u8> {
    seq![65, 68, 68]
}

/// `CANCEL`.
pub open spec fn word_cancel() -> Seq<u8> {
    seq![67, 65, 78, 67, 69, 76]
}

/// `LIMIT`.
pub open spec fn word_limit() -> Seq<u8> {
    seq![76, 73, 77, 73, 84]
}

/// `MARKET`.
pub open spec fn word_market() -> Seq<u8> {
    seq![77, 65, 82, 75, 69, 84]
}

/// A side field: `B` for a buy, `A` for a sell.
pub open spec fn parse_side(s: Seq<u8>) -> Option<IncomingSide> {
    if s == seq![66u8] {
        Some(IncomingSide::Buy)
    } else if s == seq![65u8] {
        Some(IncomingSide::Sell)
    } else {
        None
    }
}

/// The order a line of the replay format stands for, if it is well formed.
/// Fields after the ones an order needs are not read.
pub open spec fn parse_line(s: Seq<u8>) -> Option<IncomingOrder> {
    let f = fields(s);
    if f[0] == word_add() {
        if f.len() >= 5 && parse_u64(f[1]) is Some && parse_side(f[2]) is Some {
            let order_id = parse_u64(f[1]).unwrap();
            let side = parse_side(f[2]).unwrap();
            if f[3] == word_limit() {
                if f.len() >= 6 && parse_u64(f[4]) is Some && parse_u32(f[5]) is Some {
                    Some(
                        IncomingOrder::InboundLimit(
                            IncomingLimitOrder {
                                order_id,
                                price: parse_u64(f[4]).unwrap(),
                                qty: parse_u32(f[5]).unwrap(),
                                side,
                            },
                        ),
                    )
                } else {
                    None
                }
            } else if f[3] == word_market() {
                match parse_u32(f[4]) {
                    Some(qty) => Some(
                        IncomingOrder::InboundMarket(IncomingMarketOrder { order_id, qty, side }),
                    ),
                    None => None,
                }
            } else {
                None
            }
        } else {
            None
        }
    } else if f[0] == word_cancel() {
        if f.len() >= 2 && parse_u64(f[1]) is Some {
            Some(IncomingOrder::InboundCancel(IncomingCancelOrder { order_id: parse_u64(f[1]).unwrap() }))
        } else {
            None
        }
    } else {
        None
    }
}

/// The fields of a line, split at its commas.
pub fn split_fields(s: &[u8]) -> (r: Vec<Vec<u8>>)
    ensures
        r@.map_values(|v: Vec<u8>| v@) == fields(s@),
{
    let mut out: Vec<Vec<u8>> = Vec::new();
    let mut cur: Vec<u8> = Vec::new();
    let mut i: usize = 0;
    proof {
        assert(s@.subrange(0, 0) =~= Seq::<u8>::empty());
        assert(out@.map_values(|v: Vec<u8>| v@).push(cur@) =~= seq![Seq::<u8>::empty()]);
    }
    while i < s.len()
        invariant
            i <= s@.len(),
            out@.map_values(|v: Vec<u8>| v@).push(cur@) == fields(s@.subrange(0, i as int)),
        decreases s@.len() - i,
    {
        let b = s[i];
        let ghost before = out@.map_values(|v: Vec<u8>| v@).push(cur@);
        proof {
            assert(s@.subrange(0, i + 1).drop_last() =~= s@.subrange(0, i as int));
            assert(s@.subrange(0, i + 1).last() == b);
        }
        if b == COMMA {
            let mut done: Vec<u8> = Vec::new();
            std::mem::swap(&mut cur, &mut done);
            out.push(done);
            proof {
                assert(out@.map_values(|v: Vec<u8>| v@).push(cur@) =~= before.push(Seq::empty()));
            }
        } else {
            cur.push(b);
            proof {
                assert(out@.map_values(|v: Vec<u8>| v@).push(cur@) =~= before.update(
                    before.len() - 1,
                    before.last().push(b),
                ));
            }
        }
        i = i + 1;
    }
    proof {
        assert(s@.subrange(0, i as int) =~= s@);
    }
    out.push(cur);
    proof {
        assert(out@.map_values(|v: Vec<u8>| v@) =~= fields(s@));
    }
    out
}

/// The number a field spells, if it spells one no larger than `max`.
pub fn parse_bounded(s: &Vec<u8>, max: u64) -> (r: Option<u64>)
    ensures
        r == (match parse_decimal(s@) {
            Some(n) => if n <= max {
                Some(n as u64)
            } else {
                None::<u64>
            },
            None => None::<u64>,
        }),
{
    let start: usize = if s.len() > 0 && s[0] == PLUS {
        1
    } else {
        0
    };
    let ghost d = s@.subrange(start as int, s@.len() as int);
    proof {
        if start == 0 {
            assert(d =~= s@);
        }
        assert(unsigned_digits(s@) == d);
    }
    if start >= s.len() {
        return None;
    }
    let mut value: u64 = 0;
    let mut i: usize = start;
    while i < s.len()
        invariant
            start <= i <= s@.len(),
            d == s@.subrange(start as int, s@.len() as int),
            d == unsigned_digits(s@),
            forall|k: int| start <= k < i ==> is_digit(#[trigger] s@[k]),
            value as nat == digits_value(s@.subrange(start as int, i as int)),
            value <= max,
        decreases s@.len() - i,
    {
        let b = s[i];
        proof {
            assert(s@.subrange(start as int, i + 1).drop_last() =~= s@.subrange(start as int, i as int));
        }
        if b < 48 || b > 57 {
            proof {
                assert(d[i - start] == b);
                assert(!is_digit(d[i - start]));
                assert(!all_digits(d));
            }
            return None;
        }
        let digit = (b - 48) as u64;
        if digit > max || value > (max - digit) / 10 {
            proof {
                if digit <= max {
                    assert(value * 10 + digit > max) by (nonlinear_arith)
                        requires
                            value > (max - digit) / 10,
                            digit <= max,
                    ;
                }
                assert(digits_value(s@.subrange(start as int, i + 1)) == value * 10 + digit);
                assert(s@.subrange(start as int, i + 1) =~= d.subrange(0, i - start + 1));
                if all_digits(d) {
                    lemma_digits_grow(d, i - start + 1);
                }
            }
            return None;
        }
        proof {
            assert(value * 10 + digit <= max) by (nonlinear_arith)
                requires
                    value <= (max - digit) / 10,
                    digit <= max,
            ;
        }
        value = value * 10 + digit;
        i = i + 1;
    }
    proof {
        assert(s@.subrange(start as int, i as int) =~= d);
        assert forall|k: int| 0 <= k < d.len() implies is_digit(#[trigger] d[k]) by {
            assert(d[k] == s@[start + k]);
        }
        assert(all_digits(d));
    }
    Some(value)
}

/// A string of digits is worth at least any of its prefixes.
pub proof fn lemma_digits_grow(d: Seq<u8>, n: int)
    requires
        0 <= n <= d.len(),
        all_digits(d),
    ensures
        digits_value(d) >= digits_value(d.subrange(0, n)),
    decreases d.len() - n,
{
    if n < d.len() {
        lemma_digits_grow(d, n + 1);
        assert(d.subrange(0, n + 1).drop_last() =~= d.subrange(0, n));
        assert(digits_value(d.subrange(0, n + 1)) >= digits_value(d.subrange(0, n)));
    } else {
        assert(d.subrange(0, n) =~= d);
    }
}

/// Whether a field is exactly the given word.
fn is_word(f: &Vec<u8>, w: &Vec<u8>) -> (r: bool)
    ensures
        r == (f@ == w@),
{
    if f.len() != w.len() {
        return false;
    }
    let mut i: usize = 0;
    while i < f.len()
        invariant
            f@.len() == w@.len(),
            i <= f@.len(),
            forall|k: int| 0 <= k < i ==> f@[k] == w@[k],
        decreases f@.len() - i,
    {
        if f[i] != w[i] {
            return false;
        }
        i = i + 1;
    }
    proof {
        assert(f@ =~= w@);
    }
    true
}

/// Reads one line of the replay format, without its line break. A malformed
/// line gives `None`.
pub fn parse_event(line: &str) -> (r: Option<IncomingOrder>)
    ensures
        r == parse_line(line.spec_bytes()),
{
    let bytes = line.as_bytes();
    let f = split_fields(bytes);
    let ghost fs = f@.map_values(|v: Vec<u8>| v@);
    proof {
        assert(fs == fields(line.spec_bytes()));
        assert(fs.len() >= 1) by {
            lemma_fields_nonempty(line.spec_bytes());
        }
    }
    let add = vec![65u8, 68, 68];
    let cancel = vec![67u8, 65, 78, 67, 69, 76];
    let limit = vec![76u8, 73, 77, 73, 84];
    let market = vec![77u8, 65, 82, 75, 69, 84];
    proof {
        assert(add@ =~= word_add());
        assert(cancel@ =~= word_cancel());
        assert(limit@ =~= word_limit());
        assert(market@ =~= word_market());
        assert(f@[0]@ == fs[0]);
    }
    if is_word(&f[0], &add) {
        if f.len() < 5 {
            return None;
        }
        proof {
            assert(f@[1]@ == fs[1]);
            assert(f@[2]@ == fs[2]);
            assert(f@[3]@ == fs[3]);
            assert(f@[4]@ == fs[4]);
        }
        let order_id = match parse_bounded(&f[1], u64::MAX) {
            Some(v) => v,
            None => {
                return None;
            },
        };
        let side = if f[2].len() == 1 && f[2][0] == 66 {
            proof {
                assert(f@[2]@ =~= seq![66u8]);
            }
            IncomingSide::Buy
        } else if f[2].len() == 1 && f[2][0] == 65 {
            proof {
                assert(f@[2]@ =~= seq![65u8]);
            }
            IncomingSide::Sell
        } else {
            proof {
                assert(f@[2]@ != seq![66u8]);
                assert(f@[2]@ != seq![65u8]);
            }
            return None;
        };
        if is_word(&f[3], &limit) {
            if f.len() < 6 {
                return None;
            }
            proof {
                assert(f@[5]@ == fs[5]);
            }
            let price = match parse_bounded(&f[4], u64::MAX) {
                Some(v) => v,
                None => {
                    return None;
                },
            };
            let qty = match parse_bounded(&f[5], 4294967295) {
                Some(v) => v as u32,
                None => {
                    return None;
                },
            };
            Some(IncomingOrder::InboundLimit(IncomingLimitOrder { order_id, price, qty, side }))
        } else if is_word(&f[3], &market) {
            let qty = match parse_bounded(&f[4], 4294967295) {
                Some(v) => v as u32,
                None => {
                    return None;
                },
            };
            Some(IncomingOrder::InboundMarket(IncomingMarketOrder { order_id, qty, side }))
        } else {
            None
        }
    } else if is_word(&f[0], &cancel) {
        if f.len() < 2 {
            return None;
        }
        proof {
            assert(f@[1]@ == fs[1]);
        }
        match parse_bounded(&f[1], u64::MAX) {
            Some(order_id) => Some(IncomingOrder::InboundCancel(IncomingCancelOrder { order_id })),
            None => None,
        }
    } else {
        None
    }
}

/// The code of a side in the replay format.
pub open spec fn side_code(side: IncomingSide) -> Seq<char> {
    match side {
        IncomingSide::Buy => "B"@,
        IncomingSide::Sell => "A"@,
    }
}

/// The line of the replay format that stands for an order, with its line
/// break.
pub open spec fn order_line(order: IncomingOrder) -> Seq<char> {
    match order {
        IncomingOrder::InboundLimit(o) => "ADD,"@ + decimal(o.order_id as nat) + ","@ + side_code(
            o.side,
        ) + ",LIMIT,"@ + decimal(o.price as nat) + ","@ + decimal(o.qty as nat) + "\n"@,
        IncomingOrder::InboundMarket(o) => "ADD,"@ + decimal(o.order_id as nat) + ","@ + side_code(
            o.side,
        ) + ",MARKET,"@ + decimal(o.qty as nat) + "\n"@,
        IncomingOrder::InboundCancel(o) => "CANCEL,"@ + decimal(o.order_id as nat) + "\n"@,
    }
}

/// Writes an order as a line of the replay format.
pub fn format_order(order: &IncomingOrder) -> (r: String)
    ensures
        r@ == order_line(*order),
{
    proof {
        reveal_strlit("ADD,");
        reveal_strlit(",");
        reveal_strlit("B");
        reveal_strlit("A");
        reveal_strlit(",LIMIT,");
        reveal_strlit(",MARKET,");
        reveal_strlit("CANCEL,");
        reveal_strlit("\n");
    }
    match order {
        IncomingOrder::InboundLimit(o) => {
            let mut line = String::from_str("ADD,");
            line.append(u64_text(o.order_id).as_str());
            line.append(",");
            line.append(
                match o.side {
                    IncomingSide::Buy => "B",
                    IncomingSide::Sell => "A",
                },
            );
            line.append(",LIMIT,");
            line.append(u64_text(o.price).as_str());
            line.append(",");
            line.append(u64_text(o.qty as u64).as_str());
            line.append("\n");
            line
        },
        IncomingOrder::InboundMarket(o) => {
            let mut line = String::from_str("ADD,");
            line.append(u64_text(o.order_id).as_str());
            line.append(",");
            line.append(
                match o.side {
                    IncomingSide::Buy => "B",
                    IncomingSide::Sell => "A",
                },
            );
            line.append(",MARKET,");
            line.append(u64_text(o.qty as u64).as_str());
            line.append("\n");
            line
        },
        IncomingOrder::InboundCancel(o) => {
            let mut line = String::from_str("CANCEL,");
            line.append(u64_text(o.order_id).as_str());
            line.append("\n");
            line
        },
    }
}

/// The bytes of an ASCII text, one per character.
pub open spec fn ascii_bytes(s: Seq<char>) -> Seq<u8> {
    s.map_values(|c: char| (c as u32) as u8)
}

/// Whether a string of bytes holds no comma.
pub open spec fn no_comma(s: Seq<u8>) -> bool {
    forall|i: int| 0 <= i < s.len() ==> #[trigger] s[i] != COMMA
}

/// ASCII bytes of a concatenation are the concatenation of the bytes.
proof fn lemma_ascii_concat(a: Seq<char>, b: Seq<char>)
    ensures
        ascii_bytes(a + b) == ascii_bytes(a) + ascii_bytes(b),
{
    assert(ascii_bytes(a + b) =~= ascii_bytes(a) + ascii_bytes(b));
}

/// The decimal text of a number reads back as that number, and has no comma
/// and no leading `+`.
pub proof fn lemma_decimal_reads_back(n: nat)
    ensures
        ({
            let d = ascii_bytes(decimal(n));
            &&& d.len() > 0
            &&& all_digits(d)
            &&& digits_value(d) == n
            &&& no_comma(d)
            &&& unsigned_digits(d) == d
        }),
    decreases n,
{
    let d = ascii_bytes(decimal(n));
    if n < 10 {
        assert(d =~= seq![(digit_char(n) as u32) as u8]);
        assert(d.drop_last() =~= Seq::<u8>::empty());
        assert(digits_value(d.drop_last()) == 0);
    } else {
        lemma_decimal_reads_back(n / 10);
        let h = ascii_bytes(decimal(n / 10));
        let c = (digit_char(n % 10) as u32) as u8;
        assert(d =~= h.push(c));
        assert(d.drop_last() =~= h);
        assert(c as nat == 48 + n % 10);
        assert(n == (n / 10) * 10 + n % 10) by (nonlinear_arith);
        assert(all_digits(d)) by {
            assert forall|i: int| 0 <= i < d.len() implies is_digit(#[trigger] d[i]) by {
                if i < h.len() {
                    assert(d[i] == h[i]);
                }
            }
        }
        assert(no_comma(d)) by {
            assert forall|i: int| 0 <= i < d.len() implies #[trigger] d[i] != COMMA by {
                if i < h.len() {
                    assert(d[i] == h[i]);
                }
            }
        }
    }
    assert(is_digit(d[0]));
}

/// A string with no comma is one field.
proof fn lemma_fields_single(b: Seq<u8>)
    requires
        no_comma(b),
    ensures
        fields(b) == seq![b],
    decreases b.len(),
{
    if b.len() > 0 {
        lemma_fields_single(b.drop_last());
        assert(b.drop_last().push(b.last()) =~= b);
        assert(b[b.len() - 1] != COMMA);
    } else {
        assert(b =~= Seq::<u8>::empty());
    }
}

/// A comma and a string with no comma after a line add that string as one
/// more field.
proof fn lemma_fields_append(a: Seq<u8>, b: Seq<u8>)
    requires
        no_comma(b),
    ensures
        fields(a + seq![COMMA] + b) == fields(a).push(b),
    decreases b.len(),
{
    let x = a + seq![COMMA] + b;
    if b.len() == 0 {
        assert(x.drop_last() =~= a);
        assert(x.last() == COMMA);
        assert(b =~= Seq::<u8>::empty());
    } else {
        lemma_fields_append(a, b.drop_last());
        assert(x.drop_last() =~= a + seq![COMMA] + b.drop_last());
        assert(x.last() == b[b.len() - 1]);
        assert(b.drop_last().push(b.last()) =~= b);
        let f = fields(a).push(b.drop_last());
        assert(f.update(f.len() - 1, f.last().push(x.last())) =~= fields(a).push(b));
    }
}

/// The code of a side reads back as that side, and has no comma.
proof fn lemma_side_reads_back(side: IncomingSide)
    ensures
        parse_side(ascii_bytes(side_code(side))) == Some(side),
        no_comma(ascii_bytes(side_code(side))),
{
    reveal_strlit("B");
    reveal_strlit("A");
    match side {
        IncomingSide::Buy => {
            assert(ascii_bytes(side_code(side)) =~= seq![66u8]);
            assert(parse_side(seq![66u8]) == Some(IncomingSide::Buy));
        },
        IncomingSide::Sell => {
            assert(ascii_bytes(side_code(side)) =~= seq![65u8]);
            assert(seq![65u8] != seq![66u8]) by {
                assert(seq![65u8][0] != seq![66u8][0]);
            }
            assert(parse_side(seq![65u8]) == Some(IncomingSide::Sell));
        },
    }
}

/// The line written for a limit order reads back as that order.
#[verifier::rlimit(80)]
proof fn lemma_limit_round_trip(o: IncomingLimitOrder)
    ensures
        parse_line(ascii_bytes(order_line(IncomingOrder::InboundLimit(o)).drop_last())) == Some(
            IncomingOrder::InboundLimit(o),
        ),
{
    reveal_strlit("ADD,");
    reveal_strlit(",");
    reveal_strlit(",LIMIT,");
    reveal_strlit(",MARKET,");
    reveal_strlit("CANCEL,");
    reveal_strlit("\n");
    let c = seq![COMMA];
    let order = IncomingOrder::InboundLimit(o);
        let id = decimal(o.order_id as nat);
        let pr = decimal(o.price as nat);
        let q = decimal(o.qty as nat);
        lemma_decimal_reads_back(o.order_id as nat);
        lemma_decimal_reads_back(o.price as nat);
        lemma_decimal_reads_back(o.qty as nat);
        let text = "ADD,"@ + id + ","@ + side_code(o.side) + ",LIMIT,"@ + pr + ","@ + q;
        assert(order_line(order).drop_last() =~= text);
        let sb = ascii_bytes(side_code(o.side));
        let bytes = word_add() + c + ascii_bytes(id) + c + sb + c + word_limit() + c
            + ascii_bytes(pr) + c + ascii_bytes(q);
        assert(ascii_bytes(text) =~= bytes);
        assert(no_comma(word_add()));
        assert(no_comma(word_limit()));
        lemma_side_reads_back(o.side);
        lemma_fields_single(word_add());
        lemma_fields_append(word_add(), ascii_bytes(id));
        lemma_fields_append(word_add() + c + ascii_bytes(id), sb);
        lemma_fields_append(word_add() + c + ascii_bytes(id) + c + sb, word_limit());
        lemma_fields_append(word_add() + c + ascii_bytes(id) + c + sb + c + word_limit(), ascii_bytes(pr));
        lemma_fields_append(
            word_add() + c + ascii_bytes(id) + c + sb + c + word_limit() + c + ascii_bytes(pr),
            ascii_bytes(q),
        );
        let f = fields(bytes);
        assert(f =~= seq![word_add(), ascii_bytes(id), sb, word_limit(), ascii_bytes(pr), ascii_bytes(q)]);
}

/// The line written for a market order reads back as that order.
proof fn lemma_market_round_trip(o: IncomingMarketOrder)
    ensures
        parse_line(ascii_bytes(order_line(IncomingOrder::InboundMarket(o)).drop_last())) == Some(
            IncomingOrder::InboundMarket(o),
        ),
{
    reveal_strlit("ADD,");
    reveal_strlit(",");
    reveal_strlit(",LIMIT,");
    reveal_strlit(",MARKET,");
    reveal_strlit("CANCEL,");
    reveal_strlit("\n");
    let c = seq![COMMA];
    let order = IncomingOrder::InboundMarket(o);
        let id = decimal(o.order_id as nat);
        let q = decimal(o.qty as nat);
        lemma_decimal_reads_back(o.order_id as nat);
        lemma_decimal_reads_back(o.qty as nat);
        let text = "ADD,"@ + id + ","@ + side_code(o.side) + ",MARKET,"@ + q;
        assert(order_line(order).drop_last() =~= text);
        let sb = ascii_bytes(side_code(o.side));
        let bytes = word_add() + c + ascii_bytes(id) + c + sb + c + word_market() + c + ascii_bytes(q);
        assert(ascii_bytes(text) =~= bytes);
        assert(no_comma(word_add()));
        assert(no_comma(word_market()));
        lemma_side_reads_back(o.side);
        lemma_fields_single(word_add());
        lemma_fields_append(word_add(), ascii_bytes(id));
        lemma_fields_append(word_add() + c + ascii_bytes(id), sb);
        lemma_fields_append(word_add() + c + ascii_bytes(id) + c + sb, word_market());
        lemma_fields_append(word_add() + c + ascii_bytes(id) + c + sb + c + word_market(), ascii_bytes(q));
        let f = fields(bytes);
        assert(f =~= seq![word_add(), ascii_bytes(id), sb, word_market(), ascii_bytes(q)]);
        assert(word_market() != word_limit());
}

/// The line written for a cancel reads back as that cancel.
proof fn lemma_cancel_round_trip(o: IncomingCancelOrder)
    ensures
        parse_line(ascii_bytes(order_line(IncomingOrder::InboundCancel(o)).drop_last())) == Some(
            IncomingOrder::InboundCancel(o),
        ),
{
    reveal_strlit("ADD,");
    reveal_strlit(",");
    reveal_strlit(",LIMIT,");
    reveal_strlit(",MARKET,");
    reveal_strlit("CANCEL,");
    reveal_strlit("\n");
    let c = seq![COMMA];
    let order = IncomingOrder::InboundCancel(o);
        let id = decimal(o.order_id as nat);
        lemma_decimal_reads_back(o.order_id as nat);
        let text = "CANCEL,"@ + id;
        assert(order_line(order).drop_last() =~= text);
        let bytes = word_cancel() + c + ascii_bytes(id);
        assert(ascii_bytes(text) =~= bytes);
        assert(no_comma(word_cancel()));
        lemma_fields_single(word_cancel());
        lemma_fields_append(word_cancel(), ascii_bytes(id));
        let f = fields(bytes);
        assert(f =~= seq![word_cancel(), ascii_bytes(id)]);
        assert(word_cancel() != word_add());
}

/// Replay round trip: the line written for an order, read back without its
/// line break, gives the order.
pub proof fn lemma_replay_round_trip(order: IncomingOrder)
    ensures
        parse_line(ascii_bytes(order_line(order).drop_last())) == Some(order),
{
    match order {
        IncomingOrder::InboundLimit(o) => lemma_limit_round_trip(o),
        IncomingOrder::InboundMarket(o) => lemma_market_round_trip(o),
        IncomingOrder::InboundCancel(o) => lemma_cancel_round_trip(o),
    }
}

/// A line has at least one field.
pub proof fn lemma_fields_nonempty(s: Seq<u8>)
    ensures
        fields(s).len() >= 1,
    decreases s.len(),
{
    if s.len() > 0 {
        lemma_fields_nonempty(s.drop_last());
    }
}

} // verus!
