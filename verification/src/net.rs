//! The building blocks of a net: wire names, port addresses, ports and nodes.

use vstd::prelude::*;
use vstd::string::StringExecFns;

verus! {

/// The character of a decimal digit.
pub open spec fn digit_char(d: nat) -> char {
    if d == 0 {
        '0'
    } else if d == 1 {
        '1'
    } else if d == 2 {
        '2'
    } else if d == 3 {
        '3'
    } else if d == 4 {
        '4'
    } else if d == 5 {
        '5'
    } else if d == 6 {
        '6'
    } else if d == 7 {
        '7'
    } else if d == 8 {
        '8'
    } else {
        '9'
    }
}

/// The decimal digits of `n`, most significant first, without leading zeros.
pub open spec fn decimal(n: nat) -> Seq<char>
    decreases n,
{
    if n < 10 {
        seq![digit_char(n)]
    } else {
        decimal(n / 10).push(digit_char(n % 10))
    }
}

/// Whether `s` holds none of the flag letters `I`, `V`, `L`.
pub open spec fn no_flag_letters(s: Seq<char>) -> bool {
    forall|i: int| 0 <= i < s.len() ==> #[trigger] s[i] != 'I' && s[i] != 'V' && s[i] != 'L'
}

proof fn lemma_no_flag_letters_add(a: Seq<char>, b: Seq<char>)
    requires
        no_flag_letters(a),
        no_flag_letters(b),
    ensures
        no_flag_letters(a + b),
{
    assert forall|i: int| 0 <= i < (a + b).len() implies #[trigger] (a + b)[i] != 'I' && (a + b)[i] != 'V' && (a
        + b)[i] != 'L' by {
        if i < a.len() {
            assert((a + b)[i] == a[i]);
        } else {
            assert((a + b)[i] == b[i - a.len()]);
        }
    }
}

/// Decimal digits are no flag letters.
pub proof fn lemma_decimal_digits(n: nat)
    ensures
        no_flag_letters(decimal(n)),
        decimal(n).len() > 0,
    decreases n,
{
    if n >= 10 {
        lemma_decimal_digits(n / 10);
    }
}

/// The number that a string of decimal digits stands for.
pub open spec fn digits_value(s: Seq<char>) -> int
    decreases s.len(),
{
    if s.len() == 0 {
        0
    } else {
        digits_value(s.drop_last()) * 10 + ((s.last() as int) - ('0' as int))
    }
}

proof fn lemma_digit_char_value(d: nat)
    requires
        d < 10,
    ensures
        (digit_char(d) as int) - ('0' as int) == d,
{
    assert('0' as int == 48 && '1' as int == 49 && '2' as int == 50 && '3' as int == 51 && '4' as int == 52);
    assert('5' as int == 53 && '6' as int == 54 && '7' as int == 55 && '8' as int == 56 && '9' as int == 57);
}

/// The decimal law: the decimal text of a number reads back as that number.
pub proof fn lemma_decimal_value(n: nat)
    ensures
        digits_value(decimal(n)) == n,
    decreases n,
{
    let s = decimal(n);
    if n < 10 {
        lemma_digit_char_value(n);
        assert(s.drop_last() =~= Seq::<char>::empty());
        assert(digits_value(s.drop_last()) == 0);
        assert(s.last() == digit_char(n));
        assert(digits_value(s) == 0 * 10 + ((s.last() as int) - ('0' as int)));
    } else {
        lemma_digit_char_value(n % 10);
        lemma_decimal_value(n / 10);
        assert(s.drop_last() =~= decimal(n / 10));
        assert(s.last() == digit_char(n % 10));
        let q = (n / 10) as int;
        assert(digits_value(s.drop_last()) == q);
        assert(digits_value(s) == q * 10 + (n % 10));
        assert(q * 10 + n % 10 == n) by (nonlinear_arith)
            requires
                q == n / 10,
        ;
    }
}

/// The text of one decimal digit.
fn digit_str(d: u64) -> (r: &'static str)
    requires
        d < 10,
    ensures
        r@ == seq![digit_char(d as nat)],
{
    proof {
        reveal_strlit("0");
        reveal_strlit("1");
        reveal_strlit("2");
        reveal_strlit("3");
        reveal_strlit("4");
        reveal_strlit("5");
        reveal_strlit("6");
        reveal_strlit("7");
        reveal_strlit("8");
        reveal_strlit("9");
    }
    if d == 0 {
        "0"
    } else if d == 1 {
        "1"
    } else if d == 2 {
        "2"
    } else if d == 3 {
        "3"
    } else if d == 4 {
        "4"
    } else if d == 5 {
        "5"
    } else if d == 6 {
        "6"
    } else if d == 7 {
        "7"
    } else if d == 8 {
        "8"
    } else {
        "9"
    }
}

/// Appends the decimal digits of `n`.
fn push_decimal(s: &mut String, n: u64)
    ensures
        final(s)@ == old(s)@ + decimal(n as nat),
    decreases n,
{
    if n >= 10 {
        push_decimal(s, n / 10);
    }
    s.append(digit_str(n % 10));
    assert(s@ =~= old(s)@ + decimal(n as nat));
}

/// The address of one port of a node: `port` 0 is the principal port,
/// 1 and 2 are the auxiliary ports.
#[derive(Clone, Copy, Debug, PartialEq, Eq, Structural)]
pub struct Addr {
    pub node: u64,
    pub port: u64,
}

/// A port as laid out in memory: flags, the address it points at, and a label.
#[derive(Clone, Copy, Debug, PartialEq, Eq, Structural)]
pub struct Port {
    pub is_primary: bool,
    pub is_vanilla: bool,
    pub is_lazy: bool,
    pub target: Addr,
    pub label: u64,
}

/// The name of a wire; two ports connected to the same wire are linked.
#[derive(Clone, Copy, Debug, PartialEq, Eq, Structural)]
pub struct WireId(pub u64);

/// What is known of a variable while parsing: how often it was bound and
/// used, and the wire that its first binding and its first use stand on.
#[derive(Clone, Copy, Debug, PartialEq, Eq, Structural)]
pub struct VarData {
    pub binder_count: u64,
    pub to_binder: Option<WireId>,
    pub user_count: u64,
    pub to_user: Option<WireId>,
}

/// A node of the net: its flags and label, and the wires on its three ports.
#[derive(Clone, Copy, Debug, PartialEq, Eq, Structural)]
pub struct NodeData {
    pub primary: bool,
    pub vanilla: bool,
    pub lazy: bool,
    pub label: u64,
    pub p0: WireId,
    pub p1: WireId,
    pub p2: WireId,
}

impl VarData {
    /// A variable seen neither as binder nor as use.
    pub open spec fn empty() -> VarData {
        VarData { binder_count: 0, to_binder: None, user_count: 0, to_user: None }
    }
}

impl Default for VarData {
    fn default() -> (r: VarData)
        ensures
            r == VarData::empty(),
    {
        VarData { binder_count: 0, to_binder: None, user_count: 0, to_user: None }
    }
}

impl Default for Addr {
    fn default() -> (r: Addr)
        ensures
            r == (Addr { node: 0, port: 0 }),
    {
        Addr { node: 0, port: 0 }
    }
}

impl Default for Port {
    fn default() -> (r: Port)
        ensures
            r == Port::blank(),
    {
        Port { is_primary: false, is_vanilla: false, is_lazy: false, target: Addr { node: 0, port: 0 }, label: 0 }
    }
}

impl Addr {
    /// The text of an address: node and port in decimal, joined by a dot.
    pub open spec fn text(self) -> Seq<char> {
        decimal(self.node as nat) + seq!['.'] + decimal(self.port as nat)
    }

    /// The address text law: the text is the node's digits, one dot, and
    /// the port's digits; the part before the dot reads back as the node and
    /// the part after it as the port.
    pub proof fn lemma_text_reads_back(self)
        ensures
            ({
                let t = self.text();
                let k = decimal(self.node as nat).len() as int;
                &&& 0 < k < t.len()
                &&& t[k] == '.'
                &&& digits_value(t.subrange(0, k)) == self.node
                &&& digits_value(t.subrange(k + 1, t.len() as int)) == self.port
            }),
    {
        let t = self.text();
        let dn = decimal(self.node as nat);
        let dp = decimal(self.port as nat);
        lemma_decimal_digits(self.node as nat);
        lemma_decimal_digits(self.port as nat);
        lemma_decimal_value(self.node as nat);
        lemma_decimal_value(self.port as nat);
        let k = dn.len() as int;
        assert(t.subrange(0, k) =~= dn);
        assert(t.subrange(k + 1, t.len() as int) =~= dp);
    }

    /// The address as text, such as `12.2`.
    pub fn to_string(&self) -> (r: String)
        ensures
            r@ == self.text(),
    {
        let mut s = String::new();
        push_decimal(&mut s, self.node);
        proof {
            reveal_strlit(".");
        }
        s.append(".");
        push_decimal(&mut s, self.port);
        s
    }

    /// The auxiliary slot of a node's triple of ports that this address
    /// names: ports 0 and 1 both give the middle entry, port 2 the last.
    ///
    /// Only ports 0 to 2 exist.
    pub fn get_tuple_3<'a>(&self, t: &'a mut (Port, Port, Port)) -> (r: Option<&'a mut Port>)
        requires
            self.port <= 2,
        ensures
            r is Some,
            self.port <= 1 ==> *r->0 == old(t).1 && *final(t) == (old(t).0, *final(r->0), old(t).2),
            self.port == 2 ==> *r->0 == old(t).2 && *final(t) == (old(t).0, old(t).1, *final(r->0)),
    {
        if self.port == 2 {
            Some(&mut t.2)
        } else {
            Some(&mut t.1)
        }
    }

    /// The entry of a node's pair of auxiliary ports that this address names:
    /// port 1 gives the first entry, port 2 the second.
    ///
    /// Only the auxiliary ports 1 and 2 have an entry.
    pub fn get_tuple_2<'a>(&self, t: &'a mut (Port, Port)) -> (r: &'a mut Port)
        requires
            self.port == 1 || self.port == 2,
        ensures
            self.port == 1 ==> *r == old(t).0 && *final(t) == (*final(r), old(t).1),
            self.port == 2 ==> *r == old(t).1 && *final(t) == (old(t).0, *final(r)),
    {
        if self.port == 1 {
            &mut t.0
        } else {
            &mut t.1
        }
    }
}

impl Port {
    /// The text of a port: `Port { `, the letters `I`, `V` and `L` for the
    /// primary, vanilla and lazy flags that are set, `#` and the label, ` -> `
    /// and the target address, and ` }`.
    pub open spec fn text(self) -> Seq<char> {
        seq!['P', 'o', 'r', 't', ' ', '{', ' '] + (if self.is_primary { seq!['I'] } else { Seq::empty() }) + (
        if self.is_vanilla { seq!['V'] } else { Seq::empty() }) + (if self.is_lazy { seq!['L'] } else { Seq::empty() })
            + seq!['#'] + decimal(self.label as nat) + seq![' ', '-', '>', ' '] + self.target.text() + seq![' ', '}']
    }

    /// The flag letters of a port's text: `I` appears exactly when the port
    /// is primary, `V` exactly when it is vanilla, `L` exactly when it is
    /// lazy, and they come in that order right after `Port { `.
    pub proof fn lemma_text_flags(self)
        ensures
            self.text().contains('I') == self.is_primary,
            self.text().contains('V') == self.is_vanilla,
            self.text().contains('L') == self.is_lazy,
            self.text().subrange(0, 7) == seq!['P', 'o', 'r', 't', ' ', '{', ' '],
    {
        let head = seq!['P', 'o', 'r', 't', ' ', '{', ' '];
        let fi = if self.is_primary { seq!['I'] } else { Seq::<char>::empty() };
        let fv = if self.is_vanilla { seq!['V'] } else { Seq::<char>::empty() };
        let fl = if self.is_lazy { seq!['L'] } else { Seq::<char>::empty() };
        let tail = seq!['#'] + decimal(self.label as nat) + seq![' ', '-', '>', ' '] + self.target.text() + seq![' ', '}'];
        lemma_decimal_digits(self.label as nat);
        lemma_decimal_digits(self.target.node as nat);
        lemma_decimal_digits(self.target.port as nat);
        assert(no_flag_letters(head));
        assert(no_flag_letters(seq!['#']));
        assert(no_flag_letters(seq![' ', '-', '>', ' ']));
        assert(no_flag_letters(seq!['.']));
        assert(no_flag_letters(seq![' ', '}']));
        lemma_no_flag_letters_add(decimal(self.target.node as nat), seq!['.']);
        lemma_no_flag_letters_add(decimal(self.target.node as nat) + seq!['.'], decimal(self.target.port as nat));
        lemma_no_flag_letters_add(seq!['#'], decimal(self.label as nat));
        lemma_no_flag_letters_add(seq!['#'] + decimal(self.label as nat), seq![' ', '-', '>', ' ']);
        lemma_no_flag_letters_add(seq!['#'] + decimal(self.label as nat) + seq![' ', '-', '>', ' '], self.target.text());
        lemma_no_flag_letters_add(
            seq!['#'] + decimal(self.label as nat) + seq![' ', '-', '>', ' '] + self.target.text(),
            seq![' ', '}'],
        );
        let t = self.text();
        assert(t =~= head + fi + fv + fl + tail);
        let flags = fi + fv + fl;
        assert(t =~= head + (flags + tail));
        assert forall|c: char| (c == 'I' || c == 'V' || c == 'L') implies t.contains(c) == flags.contains(c) by {
            if t.contains(c) {
                let i = choose|i: int| 0 <= i < t.len() && t[i] == c;
                if i < 7 {
                    assert(t[i] == head[i]);
                } else if i < 7 + flags.len() {
                    assert(t[i] == flags[i - 7]);
                } else {
                    assert(t[i] == tail[i - 7 - flags.len()]);
                }
            }
            if flags.contains(c) {
                let i = choose|i: int| 0 <= i < flags.len() && flags[i] == c;
                assert(t[7 + i] == flags[i]);
            }
        }
        assert forall|c: char| (c == 'I' || c == 'V' || c == 'L') implies flags.contains(c) == (fi.contains(c)
            || fv.contains(c) || fl.contains(c)) by {
            if flags.contains(c) {
                let i = choose|i: int| 0 <= i < flags.len() && flags[i] == c;
                if i < fi.len() {
                    assert(flags[i] == fi[i]);
                } else if i < fi.len() + fv.len() {
                    assert(flags[i] == fv[i - fi.len()]);
                } else {
                    assert(flags[i] == fl[i - fi.len() - fv.len()]);
                }
            }
            if fi.contains(c) {
                assert(flags[0] == fi[0]);
            }
            if fv.contains(c) {
                assert(flags[fi.len() as int] == fv[0]);
            }
            if fl.contains(c) {
                assert(flags[(fi.len() + fv.len()) as int] == fl[0]);
            }
        }
        if self.is_primary {
            assert(fi[0] == 'I');
        }
        if self.is_vanilla {
            assert(fv[0] == 'V');
        }
        if self.is_lazy {
            assert(fl[0] == 'L');
        }
        assert(t.subrange(0, 7) =~= head);
    }

    /// The port as text, such as `Port { IV#3 -> 12.0 }`.
    pub fn to_string(&self) -> (r: String)
        ensures
            r@ == self.text(),
    {
        proof {
            reveal_strlit("Port { ");
            reveal_strlit("I");
            reveal_strlit("V");
            reveal_strlit("L");
            reveal_strlit("#");
            reveal_strlit(" -> ");
            reveal_strlit(" }");
        }
        let mut s = String::new();
        s.append("Port { ");
        if self.is_primary {
            s.append("I");
        }
        if self.is_vanilla {
            s.append("V");
        }
        if self.is_lazy {
            s.append("L");
        }
        s.append("#");
        push_decimal(&mut s, self.label);
        s.append(" -> ");
        let t = self.target.to_string();
        s.append(t.as_str());
        s.append(" }");
        assert(s@ =~= self.text());
        s
    }

    /// The all-false, all-zero port.
    pub open spec fn blank() -> Port {
        Port { is_primary: false, is_vanilla: false, is_lazy: false, target: Addr { node: 0, port: 0 }, label: 0 }
    }

    /// The flag bits of the encoding: bit 0 for a primary port, bits 1 and 2
    /// both for a vanilla port (the lazy flag is not encoded), bit 3 when the
    /// target is auxiliary port 2.
    pub open spec fn flag_bits(self) -> int {
        (if self.is_primary { 1int } else { 0int }) + (if self.is_vanilla { 2int } else { 0int }) + (
        if self.is_vanilla { 4int } else { 0int }) + (if self.target.port == 2 { 8int } else { 0int })
    }

    /// The mathematical sum that `to_bits` computes: the flags, the target
    /// node shifted left by 4 and the label shifted left by 48 (both shifts
    /// dropping the bits that leave the 64-bit word).
    pub open spec fn bits_sum(self) -> int {
        self.flag_bits() + (self.target.node << 4u64) as int + (self.label << 48u64) as int
    }

    /// The encoding law: for a node below 2^44 and a label below 2^16, the
    /// word of a port decodes back to its fields: bit 0 is the primary flag,
    /// bits 1 and 2 are both the vanilla flag, bit 3 says whether the target
    /// is auxiliary port 2, bits 4 to 47 are the target node and bits 48 to
    /// 63 the label.
    pub proof fn lemma_bits_decode(self)
        requires
            self.target.node < 0x1000_0000_0000,
            self.label < 0x1_0000,
        ensures
            self.bits_sum() <= u64::MAX,
            ({
                let w = self.bits_sum() as u64;
                &&& (w & 1 == 1) == self.is_primary
                &&& (w >> 1u64) & 3 == (if self.is_vanilla { 3u64 } else { 0u64 })
                &&& ((w >> 3u64) & 1 == 1) == (self.target.port == 2)
                &&& (w >> 4u64) & 0xFFF_FFFF_FFFF == self.target.node
                &&& w >> 48u64 == self.label
            }),
    {
        let p: u64 = if self.is_primary { 1 } else { 0 };
        let v: u64 = if self.is_vanilla { 1 } else { 0 };
        let t: u64 = if self.target.port == 2 { 1 } else { 0 };
        let n = self.target.node;
        let l = self.label;
        assert(n << 4u64 == n * 16 && l << 48u64 == l * 0x1_0000_0000_0000) by (bit_vector)
            requires
                n < 0x1000_0000_0000u64,
                l < 0x1_0000u64,
        ;
        let w: u64 = (p + 2 * v + 4 * v + 8 * t + n * 16 + l * 0x1_0000_0000_0000) as u64;
        assert(self.bits_sum() == p + 2 * v + 4 * v + 8 * t + n * 16 + l * 0x1_0000_0000_0000);
        assert({
            &&& (w & 1 == 1) == (p == 1)
            &&& (w >> 1u64) & 3 == 3 * v
            &&& ((w >> 3u64) & 1 == 1) == (t == 1)
            &&& (w >> 4u64) & 0xFFF_FFFF_FFFF == n
            &&& w >> 48u64 == l
        }) by (bit_vector)
            requires
                p <= 1,
                v <= 1,
                t <= 1,
                n < 0x1000_0000_0000u64,
                l < 0x1_0000u64,
                w == p + 2 * v + 4 * v + 8 * t + n * 16 + l * 0x1_0000_0000_0000,
        ;
    }

    /// The packed 64-bit word of a port.
    ///
    /// The sum must stay in the 64-bit range (see `bits_fit`).
    pub fn to_bits(&self) -> (r: u64)
        requires
            self.bits_sum() <= u64::MAX,
        ensures
            r == self.bits_sum(),
    {
        let a: u64 = if self.is_primary { 1 } else { 0 };
        let b: u64 = if self.is_vanilla { 2 } else { 0 };
        let c: u64 = if self.is_vanilla { 4 } else { 0 };
        let d: u64 = if self.target.port == 2 { 8 } else { 0 };
        let n: u64 = self.target.node << 4u64;
        let l: u64 = self.label << 48u64;
        a + b + c + d + n + l
    }

    /// Whether `to_bits` stays in range for this port.
    pub fn bits_fit(&self) -> (r: bool)
        ensures
            r == (self.bits_sum() <= u64::MAX),
    {
        let a: u128 = if self.is_primary { 1 } else { 0 };
        let b: u128 = if self.is_vanilla { 2 } else { 0 };
        let c: u128 = if self.is_vanilla { 4 } else { 0 };
        let d: u128 = if self.target.port == 2 { 8 } else { 0 };
        let n: u64 = self.target.node << 4u64;
        let l: u64 = self.label << 48u64;
        let total: u128 = a + b + c + d + n as u128 + l as u128;
        total <= 0xffff_ffff_ffff_ffffu128
    }
}

} // verus!
