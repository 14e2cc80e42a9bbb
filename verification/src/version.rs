//! Version numbers and version lists, as the macro arguments give them.

use vstd::prelude::*;
use crate::decimal::{decimal, parse_u64, parse_u64_spec, push_decimal, lemma_decimal_injective};

verus! {

/// One version of a versioned item.
#[derive(Clone, Copy, Debug, PartialEq, Eq, PartialOrd, Ord, Hash)]
pub struct Version {
    pub version: u64,
}

/// The versions that a macro argument `versions("1", "2", ...)` lists.
#[derive(Clone, Debug)]
pub struct Versions(pub Vec<Version>);

/// One item of a macro argument list: a string literal, or anything else.
#[derive(Clone, Debug)]
pub enum MetaItem {
    Str(String),
    Other,
}

/// The name of the type that stands for version `version` of the item
/// named `ident`: the name, a `V`, then the version in decimal.
pub open spec fn versioned_ident(ident: Seq<char>, version: u64) -> Seq<char> {
    ident + seq!['V'] + decimal(version as nat)
}

/// The string literals among `items`, in their order.
pub open spec fn string_literals(items: Seq<MetaItem>) -> Seq<Seq<char>>
    decreases items.len(),
{
    if items.len() == 0 {
        Seq::empty()
    } else {
        let prev = string_literals(items.drop_last());
        match items.last() {
            MetaItem::Str(s) => prev.push(s@),
            MetaItem::Other => prev,
        }
    }
}

/// Whether every one of `texts` reads as a `u64`.
pub open spec fn all_parse(texts: Seq<Seq<char>>) -> bool {
    forall|i: int| 0 <= i < texts.len() ==> (#[trigger] parse_u64_spec(texts[i])) is Some
}

/// The versions that `texts` read as, one for each, in their order.
pub open spec fn versions_read(texts: Seq<Seq<char>>, vs: Seq<Version>) -> bool {
    &&& vs.len() == texts.len()
    &&& forall|i: int| 0 <= i < vs.len() ==> Some(#[trigger] vs[i].version) == parse_u64_spec(texts[i])
}

/// Whether `vs` lists `version`.
pub open spec fn lists_version(vs: Seq<Version>, version: u64) -> bool {
    exists|i: int| 0 <= i < vs.len() && #[trigger] vs[i].version == version
}

/// Whether `vs` is in ascending order of version number.
pub open spec fn ascending(vs: Seq<Version>) -> bool {
    forall|i: int, j: int| 0 <= i <= j < vs.len() ==> vs[i].version <= vs[j].version
}

/// The number of bytes of the unsigned LEB128 varint encoding of `n`: one
/// byte for each started group of seven bits, and at least one.
pub open spec fn varint_len(n: nat) -> nat
    decreases n,
{
    if n < 128 {
        1
    } else {
        1 + varint_len(n / 128)
    }
}

/// `unsigned_varint::encode::u64` writes `number` as an unsigned LEB128
/// varint into a ten-byte buffer and returns the written bytes; this gives
/// their number. Claimed: it is one byte for each started group of seven
/// bits, and at least one (`varint_len`).
#[verifier::external_body]
fn encoded_u64_len(number: u64) -> (len: usize)
    ensures
        len as nat == varint_len(number as nat),
{
    unsigned_varint::encode::u64(number, &mut unsigned_varint::encode::u64_buffer()).len()
}

impl Version {
    /// The name of the type for this version of the item named `ident`.
    pub fn to_ident(&self, ident: &str) -> (r: String)
        ensures
            r@ == versioned_ident(ident@, self.version),
    {
        let mut s = String::from_str(ident);
        proof {
            reveal_strlit("V");
        }
        s.append("V");
        push_decimal(&mut s, self.version);
        s
    }

    /// Reads a version from its text, as `str::parse::<u64>` does.
    pub fn parse(value: &str) -> (r: Option<Version>)
        ensures
            r == (match parse_u64_spec(value@) {
                Some(n) => Some(Version { version: n }),
                None => None::<Version>,
            }),
    {
        match parse_u64(value) {
            Some(n) => Some(Version { version: n }),
            None => None,
        }
    }

    /// The version whose text is `value`; the text must read as a `u64`.
    pub fn from_string(value: &str) -> (r: Version)
        requires
            parse_u64_spec(value@) is Some,
        ensures
            Some(r.version) == parse_u64_spec(value@),
    {
        Version { version: parse_u64(value).unwrap() }
    }

    /// The number of bytes of this version number as an unsigned LEB128 varint.
    pub fn varint_size(&self) -> (r: usize)
        ensures
            r as nat == varint_len(self.version as nat),
    {
        encoded_u64_len(self.version)
    }
}


/// Each item adds its text to the string literals when it is one.
pub proof fn lemma_string_literals_step(items: Seq<MetaItem>, i: int)
    requires
        0 <= i < items.len(),
    ensures
        string_literals(items.take(i + 1)) == (match items[i] {
            MetaItem::Str(s) => string_literals(items.take(i)).push(s@),
            MetaItem::Other => string_literals(items.take(i)),
        }),
{
    assert(items.take(i + 1).drop_last() =~= items.take(i));
}

/// Whether every string literal among `items` reads as a `u64`.
pub fn literals_parse(items: &[MetaItem]) -> (r: bool)
    ensures
        r == all_parse(string_literals(items@)),
{
    let mut i: usize = 0;
    while i < items.len()
        invariant
            i <= items@.len(),
            all_parse(string_literals(items@.take(i as int))),
        decreases items@.len() - i,
    {
        proof {
            lemma_string_literals_step(items@, i as int);
        }
        let ghost prev = string_literals(items@.take(i as int));
        match &items[i] {
            MetaItem::Str(text) => {
                if parse_u64(text.as_str()).is_none() {
                    proof {
                        let later = string_literals(items@.take(i + 1));
                        assert(later[prev.len() as int] == text@);
                        if all_parse(string_literals(items@)) {
                            lemma_all_parse_prefix(items@, i + 1);
                            assert(parse_u64_spec(later[prev.len() as int]) is Some);
                        }
                    }
                    return false;
                }
                proof {
                    let next = prev.push(text@);
                    assert forall|k: int| 0 <= k < next.len() implies (#[trigger] parse_u64_spec(next[k])) is Some by {
                        if k < prev.len() {
                            assert(next[k] == prev[k]);
                        }
                    }
                }
            },
            MetaItem::Other => {},
        }
        i = i + 1;
    }
    assert(items@.take(i as int) =~= items@);
    true
}

proof fn lemma_all_parse_prefix(items: Seq<MetaItem>, k: int)
    requires
        0 <= k <= items.len(),
        all_parse(string_literals(items)),
    ensures
        all_parse(string_literals(items.take(k))),
    decreases items.len() - k,
{
    if k < items.len() {
        lemma_all_parse_prefix(items, k + 1);
        lemma_string_literals_step(items, k);
        let next = string_literals(items.take(k + 1));
        let prev = string_literals(items.take(k));
        assert forall|j: int| 0 <= j < prev.len() implies (#[trigger] parse_u64_spec(prev[j])) is Some by {
            assert(next[j] == prev[j]);
        }
    } else {
        assert(items.take(k) =~= items);
    }
}

impl Versions {
    /// The versions that the string literals among `items` give, in their
    /// order; the other items are passed over. Each literal must read as a
    /// `u64`.
    pub fn from_list(items: &[MetaItem]) -> (r: Versions)
        requires
            all_parse(string_literals(items@)),
        ensures
            versions_read(string_literals(items@), r.0@),
    {
        let mut out: Vec<Version> = Vec::new();
        let mut i: usize = 0;
        while i < items.len()
            invariant
                i <= items@.len(),
                all_parse(string_literals(items@)),
                versions_read(string_literals(items@.take(i as int)), out@),
            decreases items@.len() - i,
        {
            proof {
                lemma_string_literals_step(items@, i as int);
                lemma_all_parse_prefix(items@, i + 1);
            }
            let ghost prev = string_literals(items@.take(i as int));
            match &items[i] {
                MetaItem::Str(text) => {
                    proof {
                        let later = string_literals(items@.take(i + 1));
                        assert(later[prev.len() as int] == text@);
                    }
                    let v = Version::from_string(text.as_str());
                    out.push(v);
                },
                MetaItem::Other => {},
            }
            i = i + 1;
        }
        assert(items@.take(i as int) =~= items@);
        Versions(out)
    }

    /// The versions that the string literals among `items` give, or `None`
    /// where one of them does not read as a `u64`.
    pub fn try_from_list(items: &[MetaItem]) -> (r: Option<Versions>)
        ensures
            r is Some <==> all_parse(string_literals(items@)),
            r matches Some(vs) ==> versions_read(string_literals(items@), vs.0@),
    {
        if literals_parse(items) {
            Some(Versions::from_list(items))
        } else {
            None
        }
    }

    /// Whether this list holds `version`.
    pub fn contains(&self, version: &Version) -> (r: bool)
        ensures
            r == lists_version(self.0@, version.version),
    {
        let mut i: usize = 0;
        while i < self.0.len()
            invariant
                i <= self.0@.len(),
                forall|j: int| 0 <= j < i ==> self.0@[j].version != version.version,
            decreases self.0@.len() - i,
        {
            if self.0[i].version == version.version {
                return true;
            }
            i = i + 1;
        }
        false
    }

    /// Puts the versions in ascending order of version number.
    pub fn sort(&mut self)
        ensures
            ascending(final(self).0@),
            final(self).0@.to_multiset() == old(self).0@.to_multiset(),
            final(self).0@.len() == old(self).0@.len(),
    {
        let ghost orig = self.0@;
        let mut sorted: Vec<Version> = Vec::new();
        let mut i: usize = 0;
        let n = self.0.len();
        assert(orig.take(0) =~= sorted@);
        while i < n
            invariant
                n == orig.len(),
                self.0@ == orig,
                i <= n,
                ascending(sorted@),
                sorted@.len() == i,
                sorted@.to_multiset() == orig.take(i as int).to_multiset(),
            decreases n - i,
        {
            let x = self.0[i];
            let mut pos: usize = 0;
            while pos < sorted.len() && sorted[pos].version <= x.version
                invariant
                    pos <= sorted@.len(),
                    forall|j: int| 0 <= j < pos ==> sorted@[j].version <= x.version,
                decreases sorted@.len() - pos,
            {
                pos = pos + 1;
            }
            let ghost before = sorted@;
            sorted.insert(pos, x);
            proof {
                lemma_insert_to_multiset(before, pos as int, x);
                assert(orig.take(i + 1) =~= orig.take(i as int).push(x));
                orig.take(i as int).to_multiset_ensures();
                assert forall|a: int, b: int| 0 <= a <= b < sorted@.len() implies
                    sorted@[a].version <= sorted@[b].version by {
                    if a < pos && b > pos {
                        assert(sorted@[b] == before[b - 1]);
                    } else if a > pos {
                        assert(sorted@[a] == before[a - 1]);
                        assert(sorted@[b] == before[b - 1]);
                    } else if a == pos && b > pos {
                        assert(sorted@[b] == before[b - 1]);
                        if b - 1 >= pos {
                            assert(before[pos as int].version > x.version || pos == before.len());
                        }
                    }
                }
            }
            i = i + 1;
        }
        assert(orig.take(n as int) =~= orig);
        self.0 = sorted;
    }
}

proof fn lemma_insert_to_multiset(s: Seq<Version>, p: int, x: Version)
    requires
        0 <= p <= s.len(),
    ensures
        s.insert(p, x).to_multiset() =~= s.to_multiset().insert(x),
{
    let r = s.insert(p, x);
    assert(r.remove(p) =~= s);
    r.to_multiset_ensures();
    assert(r.contains(x)) by {
        assert(r[p] == x);
    }
    broadcast use vstd::multiset::group_multiset_axioms;
}


/// Two lists in ascending order that hold the same versions are the same
/// list: sorting forgets the order in which the versions were given.
pub proof fn lemma_ascending_unique(a: Seq<Version>, b: Seq<Version>)
    requires
        ascending(a),
        ascending(b),
        a.to_multiset() == b.to_multiset(),
    ensures
        a == b,
    decreases a.len(),
{
    a.to_multiset_ensures();
    b.to_multiset_ensures();
    if a.len() == 0 {
        assert(a =~= b);
    } else {
        assert(a.contains(a[0]));
        assert(a.to_multiset().count(a[0]) > 0);
        assert(b.to_multiset().count(a[0]) > 0);
        assert(b.contains(a[0]));
        let j = choose|j: int| 0 <= j < b.len() && b[j] == a[0];
        assert(b[0].version <= b[j].version);
        assert(b.contains(b[0]));
        assert(b.to_multiset().count(b[0]) > 0);
        assert(a.to_multiset().count(b[0]) > 0);
        assert(a.contains(b[0]));
        let k = choose|k: int| 0 <= k < a.len() && a[k] == b[0];
        assert(a[0].version <= a[k].version);
        assert(a[0] == b[0]);
        let a1 = a.drop_first();
        let b1 = b.drop_first();
        assert(a.remove(0) =~= a1);
        assert(b.remove(0) =~= b1);
        assert(a1.to_multiset() == b1.to_multiset());
        assert(ascending(a1)) by {
            assert forall|x: int, y: int| 0 <= x <= y < a1.len() implies a1[x].version <= a1[y].version by {
                assert(a1[x] == a[x + 1] && a1[y] == a[y + 1]);
            }
        }
        assert(ascending(b1)) by {
            assert forall|x: int, y: int| 0 <= x <= y < b1.len() implies b1[x].version <= b1[y].version by {
                assert(b1[x] == b[x + 1] && b1[y] == b[y + 1]);
            }
        }
        lemma_ascending_unique(a1, b1);
        assert(a =~= b) by {
            assert forall|x: int| 0 <= x < a.len() implies a[x] == b[x] by {
                if x > 0 {
                    assert(a[x] == a1[x - 1] && b[x] == b1[x - 1]);
                }
            }
        }
    }
}

/// Distinct versions of one item get distinct type names.
pub proof fn lemma_to_ident_injective(ident: Seq<char>, a: u64, b: u64)
    requires
        versioned_ident(ident, a) == versioned_ident(ident, b),
    ensures
        a == b,
{
    let k = ident.len() + 1;
    let na = versioned_ident(ident, a);
    let nb = versioned_ident(ident, b);
    assert(na.subrange(k as int, na.len() as int) =~= decimal(a as nat));
    assert(nb.subrange(k as int, nb.len() as int) =~= decimal(b as nat));
    lemma_decimal_injective(a as nat, b as nat);
}

proof fn lemma_varint_len_below(n: nat, k: nat, bound: nat)
    requires
        k >= 1,
        n < bound,
        bound == pow128(k),
    ensures
        varint_len(n) <= k,
    decreases k,
{
    if n >= 128 {
        assert(k > 1) by {
            if k == 1 {
                reveal_with_fuel(pow128, 2);
            }
        }
        let kp = (k - 1) as nat;
        assert(n / 128 < pow128(kp)) by (nonlinear_arith)
            requires
                n < bound,
                bound == pow128(kp) * 128,
        {
        }
        lemma_varint_len_below(n / 128, kp, pow128(kp));
    }
}

/// `128` to the power `k`.
pub open spec fn pow128(k: nat) -> nat
    decreases k,
{
    if k == 0 {
        1
    } else {
        128 * pow128((k - 1) as nat)
    }
}

/// A version number takes between one and ten varint bytes, and one byte
/// exactly when it is below 128.
pub proof fn lemma_varint_len_bounds(n: u64)
    ensures
        1 <= varint_len(n as nat) <= 10,
        varint_len(n as nat) == 1 <==> n < 128,
{
    reveal_with_fuel(pow128, 11);
    assert(pow128(10) == 1180591620717411303424nat);
    lemma_varint_len_below(n as nat, 10, pow128(10));
    if n >= 128 {
        assert(varint_len(n as nat) == 1 + varint_len(n as nat / 128));
    }
}


/// The varint size of `n` is the number of base-128 digits of `n`: `n` is
/// below `128` to that power, and (past one byte) not below `128` to one
/// less.
pub proof fn lemma_varint_len_exact(n: nat)
    ensures
        n < pow128(varint_len(n)),
        varint_len(n) == 1 || pow128((varint_len(n) - 1) as nat) <= n,
    decreases n,
{
    reveal_with_fuel(pow128, 2);
    if n >= 128 {
        lemma_varint_len_exact(n / 128);
        let k = varint_len(n / 128);
        assert(pow128(k + 1) == 128 * pow128(k));
        assert(n < pow128(k + 1)) by (nonlinear_arith)
            requires
                n / 128 < pow128(k),
                pow128(k + 1) == 128 * pow128(k),
        {
        }
        if k > 1 {
            assert(pow128(k) == 128 * pow128((k - 1) as nat));
            assert(pow128(k) <= n) by (nonlinear_arith)
                requires
                    pow128((k - 1) as nat) <= n / 128,
                    pow128(k) == 128 * pow128((k - 1) as nat),
            {
            }
        } else {
            assert(pow128(1) == 128);
        }
    }
}

} // verus!
