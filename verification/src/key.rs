//! Sort-key values and the strict total order that pagination walks.
//!
//! A record's position in a result set is the tuple of its sort-field
//! values, closed by a tie-break field that no two records share. The
//! order defined here is lexicographic over that tuple, each field taken
//! ascending or descending as the sort key says.

use vstd::prelude::*;
use vstd::string::*;

verus! {

/// Mathematical model of one sort-field value.
pub enum Part {
    Null,
    Int(i64),
    Text(Seq<u8>),
}

/// One sort-field value: absent, an integer, or text held as its bytes.
#[derive(Debug, PartialEq, Eq)]
pub enum KeyPart {
    Null,
    Int(i64),
    Text(Vec<u8>),
}

impl View for KeyPart {
    type V = Part;

    open spec fn view(&self) -> Part {
        match self {
            KeyPart::Null => Part::Null,
            KeyPart::Int(x) => Part::Int(*x),
            KeyPart::Text(t) => Part::Text(t@),
        }
    }
}

/// The sort-key value of one record: one part per sort field, the
/// tie-break field last.
#[derive(Debug, PartialEq, Eq)]
pub struct SortKeyValue {
    pub parts: Vec<KeyPart>,
}

impl View for SortKeyValue {
    type V = Seq<Part>;

    open spec fn view(&self) -> Seq<Part> {
        Seq::new(self.parts@.len(), |i: int| self.parts@[i]@)
    }
}

/// One field of a sort key with its direction.
#[derive(Debug, PartialEq, Eq)]
pub struct SortField {
    pub name: String,
    pub descending: bool,
}

/// The definition of a sort order: its fields, most significant first.
/// The last field is the tie-break and must be unique per record.
#[derive(Debug, PartialEq, Eq)]
pub struct SortKey {
    pub fields: Vec<SortField>,
}

impl View for SortKey {
    type V = Seq<bool>;

    /// The direction of each field: `true` where it is descending.
    open spec fn view(&self) -> Seq<bool> {
        Seq::new(self.fields@.len(), |i: int| self.fields@[i].descending)
    }
}

/// Lexicographic comparison of byte strings from index `i` on.
pub open spec fn bytes_less_from(a: Seq<u8>, b: Seq<u8>, i: int) -> bool
    decreases b.len() - i,
{
    if i < 0 || i >= b.len() {
        false
    } else if i >= a.len() {
        true
    } else if a[i] != b[i] {
        a[i] < b[i]
    } else {
        bytes_less_from(a, b, i + 1)
    }
}

/// `a` comes strictly before `b` in byte-wise lexicographic order.
pub open spec fn bytes_less(a: Seq<u8>, b: Seq<u8>) -> bool {
    bytes_less_from(a, b, 0)
}

/// Kinds of part in ascending order: absent values, integers, text.
pub open spec fn part_rank(p: Part) -> int {
    match p {
        Part::Null => 0,
        Part::Int(_) => 1,
        Part::Text(_) => 2,
    }
}

/// `a` is strictly smaller than `b`: by kind first, then by value.
pub open spec fn part_less(a: Part, b: Part) -> bool {
    match (a, b) {
        (Part::Int(x), Part::Int(y)) => x < y,
        (Part::Text(s), Part::Text(t)) => bytes_less(s, t),
        _ => part_rank(a) < part_rank(b),
    }
}

/// `a` comes strictly before `b` in a field of the given direction.
pub open spec fn part_before(descending: bool, a: Part, b: Part) -> bool {
    if descending {
        part_less(b, a)
    } else {
        part_less(a, b)
    }
}

/// The key value has one part per field of the sort key.
pub open spec fn conforms(desc: Seq<bool>, a: Seq<Part>) -> bool {
    a.len() == desc.len()
}

/// Lexicographic comparison of key values from field `i` on.
pub open spec fn precedes_from(desc: Seq<bool>, a: Seq<Part>, b: Seq<Part>, i: int) -> bool
    decreases desc.len() - i,
{
    if i < 0 || i >= desc.len() || i >= a.len() || i >= b.len() {
        false
    } else if a[i] != b[i] {
        part_before(desc[i], a[i], b[i])
    } else {
        precedes_from(desc, a, b, i + 1)
    }
}

/// `a` comes strictly before `b` in the order that `desc` defines: the
/// first field in which they differ decides.
pub open spec fn precedes(desc: Seq<bool>, a: Seq<Part>, b: Seq<Part>) -> bool {
    precedes_from(desc, a, b, 0)
}

proof fn lemma_bytes_irreflexive_from(a: Seq<u8>, i: int)
    ensures
        !bytes_less_from(a, a, i),
    decreases a.len() - i,
{
    if 0 <= i < a.len() {
        lemma_bytes_irreflexive_from(a, i + 1);
    }
}

proof fn lemma_bytes_transitive_from(a: Seq<u8>, b: Seq<u8>, c: Seq<u8>, i: int)
    requires
        bytes_less_from(a, b, i),
        bytes_less_from(b, c, i),
    ensures
        bytes_less_from(a, c, i),
    decreases c.len() - i,
{
    if i < a.len() && a[i] == b[i] && b[i] == c[i] {
        lemma_bytes_transitive_from(a, b, c, i + 1);
    }
}

proof fn lemma_bytes_total_from(a: Seq<u8>, b: Seq<u8>, i: int)
    requires
        0 <= i <= a.len(),
        i <= b.len(),
        !bytes_less_from(a, b, i),
        !bytes_less_from(b, a, i),
    ensures
        a.len() == b.len(),
        forall|j: int| i <= j < a.len() ==> a[j] == b[j],
    decreases a.len() - i,
{
    if i < a.len() && i < b.len() {
        lemma_bytes_total_from(a, b, i + 1);
    }
}

/// No byte string comes before itself.
pub proof fn lemma_bytes_irreflexive(a: Seq<u8>)
    ensures
        !bytes_less(a, a),
{
    lemma_bytes_irreflexive_from(a, 0);
}

/// Byte-wise order is transitive.
pub proof fn lemma_bytes_transitive(a: Seq<u8>, b: Seq<u8>, c: Seq<u8>)
    requires
        bytes_less(a, b),
        bytes_less(b, c),
    ensures
        bytes_less(a, c),
{
    lemma_bytes_transitive_from(a, b, c, 0);
}

/// Two different byte strings are ordered one way or the other.
pub proof fn lemma_bytes_total(a: Seq<u8>, b: Seq<u8>)
    ensures
        a == b || bytes_less(a, b) || bytes_less(b, a),
{
    if !bytes_less(a, b) && !bytes_less(b, a) {
        lemma_bytes_total_from(a, b, 0);
        assert(a =~= b);
    }
}

/// No part is smaller than itself.
pub proof fn lemma_part_irreflexive(a: Part)
    ensures
        !part_less(a, a),
{
    if let Part::Text(s) = a {
        lemma_bytes_irreflexive(s);
    }
}

/// The order on parts is transitive.
pub proof fn lemma_part_transitive(a: Part, b: Part, c: Part)
    requires
        part_less(a, b),
        part_less(b, c),
    ensures
        part_less(a, c),
{
    if let (Part::Text(s), Part::Text(t), Part::Text(u)) = (a, b, c) {
        lemma_bytes_transitive(s, t, u);
    }
}

/// Two different parts are ordered one way or the other.
pub proof fn lemma_part_total(a: Part, b: Part)
    ensures
        a == b || part_less(a, b) || part_less(b, a),
{
    if let (Part::Text(s), Part::Text(t)) = (a, b) {
        lemma_bytes_total(s, t);
    }
}

proof fn lemma_precedes_irreflexive_from(desc: Seq<bool>, a: Seq<Part>, i: int)
    ensures
        !precedes_from(desc, a, a, i),
    decreases desc.len() - i,
{
    if 0 <= i < desc.len() {
        lemma_precedes_irreflexive_from(desc, a, i + 1);
    }
}

proof fn lemma_precedes_transitive_from(
    desc: Seq<bool>,
    a: Seq<Part>,
    b: Seq<Part>,
    c: Seq<Part>,
    i: int,
)
    requires
        precedes_from(desc, a, b, i),
        precedes_from(desc, b, c, i),
    ensures
        precedes_from(desc, a, c, i),
    decreases desc.len() - i,
{
    if a[i] == b[i] && b[i] == c[i] {
        lemma_precedes_transitive_from(desc, a, b, c, i + 1);
    } else if a[i] != b[i] && b[i] != c[i] {
        if desc[i] {
            lemma_part_transitive(c[i], b[i], a[i]);
            lemma_part_irreflexive(a[i]);
        } else {
            lemma_part_transitive(a[i], b[i], c[i]);
            lemma_part_irreflexive(a[i]);
        }
    }
}

proof fn lemma_precedes_total_from(desc: Seq<bool>, a: Seq<Part>, b: Seq<Part>, i: int)
    requires
        conforms(desc, a),
        conforms(desc, b),
        0 <= i <= desc.len(),
        !precedes_from(desc, a, b, i),
        !precedes_from(desc, b, a, i),
    ensures
        forall|j: int| i <= j < desc.len() ==> a[j] == b[j],
    decreases desc.len() - i,
{
    if i < desc.len() {
        lemma_part_total(a[i], b[i]);
        lemma_precedes_total_from(desc, a, b, i + 1);
    }
}

/// No key value comes before itself.
pub proof fn lemma_precedes_irreflexive(desc: Seq<bool>, a: Seq<Part>)
    ensures
        !precedes(desc, a, a),
{
    lemma_precedes_irreflexive_from(desc, a, 0);
}

/// The order on key values is transitive.
pub proof fn lemma_precedes_transitive(desc: Seq<bool>, a: Seq<Part>, b: Seq<Part>, c: Seq<Part>)
    requires
        precedes(desc, a, b),
        precedes(desc, b, c),
    ensures
        precedes(desc, a, c),
{
    lemma_precedes_transitive_from(desc, a, b, c, 0);
}

/// No two key values come before each other.
pub proof fn lemma_precedes_asymmetric(desc: Seq<bool>, a: Seq<Part>, b: Seq<Part>)
    requires
        precedes(desc, a, b),
    ensures
        !precedes(desc, b, a),
{
    if precedes(desc, b, a) {
        lemma_precedes_transitive(desc, a, b, a);
        lemma_precedes_irreflexive(desc, a);
    }
}

/// Two different key values of the same sort key are ordered one way or
/// the other: the order is total.
pub proof fn lemma_precedes_total(desc: Seq<bool>, a: Seq<Part>, b: Seq<Part>)
    requires
        conforms(desc, a),
        conforms(desc, b),
    ensures
        a == b || precedes(desc, a, b) || precedes(desc, b, a),
{
    if !precedes(desc, a, b) && !precedes(desc, b, a) {
        lemma_precedes_total_from(desc, a, b, 0);
        assert(a =~= b);
    }
}

/// Tie-break: two key values that agree in every field but the last are
/// ordered exactly as their last parts are, in that field's direction.
pub proof fn lemma_tie_break_decides(desc: Seq<bool>, a: Seq<Part>, b: Seq<Part>)
    requires
        desc.len() > 0,
        conforms(desc, a),
        conforms(desc, b),
        a.drop_last() == b.drop_last(),
        a.last() != b.last(),
    ensures
        precedes(desc, a, b) == part_before(desc.last(), a.last(), b.last()),
        precedes(desc, a, b) != precedes(desc, b, a),
{
    let n = desc.len() as int;
    assert forall|j: int| 0 <= j < n - 1 implies a[j] == b[j] by {
        assert(a[j] == a.drop_last()[j]);
        assert(b[j] == b.drop_last()[j]);
    }
    lemma_precedes_skip_equal(desc, a, b, 0, n - 1);
    lemma_precedes_skip_equal(desc, b, a, 0, n - 1);
    lemma_part_total(a.last(), b.last());
    if part_less(a.last(), b.last()) && part_less(b.last(), a.last()) {
        lemma_part_transitive(a.last(), b.last(), a.last());
        lemma_part_irreflexive(a.last());
    }
}

/// Fields in which two key values agree do not decide their order.
pub proof fn lemma_precedes_skip_equal(
    desc: Seq<bool>,
    a: Seq<Part>,
    b: Seq<Part>,
    i: int,
    k: int,
)
    requires
        0 <= i <= k,
        k <= desc.len(),
        k <= a.len(),
        k <= b.len(),
        forall|j: int| i <= j < k ==> a[j] == b[j],
    ensures
        precedes_from(desc, a, b, i) == precedes_from(desc, a, b, k),
    decreases k - i,
{
    if i < k {
        lemma_precedes_skip_equal(desc, a, b, i + 1, k);
    }
}

proof fn lemma_bytes_skip_equal(a: Seq<u8>, b: Seq<u8>, i: int, k: int)
    requires
        0 <= i <= k,
        k <= a.len(),
        k <= b.len(),
        forall|j: int| i <= j < k ==> a[j] == b[j],
    ensures
        bytes_less_from(a, b, i) == bytes_less_from(a, b, k),
    decreases k - i,
{
    if i < k {
        lemma_bytes_skip_equal(a, b, i + 1, k);
    }
}

/// Whether two byte strings are the same.
pub fn bytes_same(a: &Vec<u8>, b: &Vec<u8>) -> (r: bool)
    ensures
        r == (a@ == b@),
{
    if a.len() != b.len() {
        return false;
    }
    let mut i: usize = 0;
    while i < a.len()
        invariant
            a.len() == b.len(),
            i <= a.len(),
            forall|j: int| 0 <= j < i ==> a@[j] == b@[j],
        decreases a.len() - i,
    {
        if a[i] != b[i] {
            return false;
        }
        i += 1;
    }
    assert(a@ =~= b@);
    true
}

/// Whether `a` comes strictly before `b` byte by byte.
pub fn bytes_before(a: &Vec<u8>, b: &Vec<u8>) -> (r: bool)
    ensures
        r == bytes_less(a@, b@),
{
    let mut i: usize = 0;
    while i < a.len() && i < b.len()
        invariant
            i <= a.len(),
            i <= b.len(),
            forall|j: int| 0 <= j < i ==> a@[j] == b@[j],
        decreases a.len() - i,
    {
        if a[i] != b[i] {
            proof {
                lemma_bytes_skip_equal(a@, b@, 0, i as int);
            }
            return a[i] < b[i];
        }
        i += 1;
    }
    proof {
        lemma_bytes_skip_equal(a@, b@, 0, i as int);
    }
    i < b.len()
}

impl KeyPart {
    /// The text part that holds the bytes of `s`.
    pub fn text(s: &str) -> (r: KeyPart)
        ensures
            r@ == Part::Text(s.spec_bytes()),
    {
        KeyPart::Text(s.as_bytes_vec())
    }

    /// A copy of this part.
    pub fn duplicate(&self) -> (r: KeyPart)
        ensures
            r@ == self@,
    {
        match self {
            KeyPart::Null => KeyPart::Null,
            KeyPart::Int(x) => KeyPart::Int(*x),
            KeyPart::Text(t) => {
                let mut out: Vec<u8> = Vec::new();
                let mut i: usize = 0;
                while i < t.len()
                    invariant
                        i <= t.len(),
                        out@ == t@.take(i as int),
                    decreases t.len() - i,
                {
                    out.push(t[i]);
                    assert(t@.take(i + 1) =~= t@.take(i as int).push(t@[i as int]));
                    i += 1;
                }
                assert(t@.take(t.len() as int) =~= t@);
                KeyPart::Text(out)
            },
        }
    }

    /// Whether the two parts hold the same value.
    pub fn same(&self, other: &KeyPart) -> (r: bool)
        ensures
            r == (self@ == other@),
    {
        match (self, other) {
            (KeyPart::Null, KeyPart::Null) => true,
            (KeyPart::Int(x), KeyPart::Int(y)) => *x == *y,
            (KeyPart::Text(s), KeyPart::Text(t)) => bytes_same(s, t),
            _ => false,
        }
    }

    /// Whether this part is strictly smaller than `other`.
    pub fn less(&self, other: &KeyPart) -> (r: bool)
        ensures
            r == part_less(self@, other@),
    {
        match (self, other) {
            (KeyPart::Int(x), KeyPart::Int(y)) => *x < *y,
            (KeyPart::Text(s), KeyPart::Text(t)) => bytes_before(s, t),
            (KeyPart::Null, KeyPart::Null) => false,
            (KeyPart::Null, _) => true,
            (KeyPart::Int(_), KeyPart::Text(_)) => true,
            _ => false,
        }
    }
}

impl SortKeyValue {
    /// The key value made of the given parts.
    pub fn new(parts: Vec<KeyPart>) -> (r: SortKeyValue)
        ensures
            r.parts == parts,
    {
        SortKeyValue { parts }
    }

    /// The number of parts.
    pub fn arity(&self) -> (n: usize)
        ensures
            n == self@.len(),
    {
        self.parts.len()
    }

    /// A copy of this key value.
    pub fn duplicate(&self) -> (r: SortKeyValue)
        ensures
            r@ == self@,
    {
        let mut parts: Vec<KeyPart> = Vec::new();
        let mut i: usize = 0;
        while i < self.parts.len()
            invariant
                i <= self.parts.len(),
                parts.len() == i,
                forall|j: int| 0 <= j < i ==> parts@[j]@ == self.parts@[j]@,
            decreases self.parts.len() - i,
        {
            parts.push(self.parts[i].duplicate());
            i += 1;
        }
        let r = SortKeyValue { parts };
        assert(r@ =~= self@);
        r
    }

    /// Whether the two key values are the same, part for part.
    pub fn same(&self, other: &SortKeyValue) -> (r: bool)
        ensures
            r == (self@ == other@),
    {
        if self.parts.len() != other.parts.len() {
            assert(self@.len() != other@.len());
            return false;
        }
        let mut i: usize = 0;
        while i < self.parts.len()
            invariant
                self.parts.len() == other.parts.len(),
                i <= self.parts.len(),
                forall|j: int| 0 <= j < i ==> self@[j] == other@[j],
            decreases self.parts.len() - i,
        {
            if !self.parts[i].same(&other.parts[i]) {
                assert(self@[i as int] != other@[i as int]);
                return false;
            }
            i += 1;
        }
        assert(self@ =~= other@);
        true
    }
}

impl SortField {
    /// An ascending field.
    pub fn ascending(name: &str) -> (r: SortField)
        ensures
            r.name@ == name@,
            !r.descending,
    {
        SortField { name: String::from_str(name), descending: false }
    }

    /// A descending field.
    pub fn descending(name: &str) -> (r: SortField)
        ensures
            r.name@ == name@,
            r.descending,
    {
        SortField { name: String::from_str(name), descending: true }
    }
}

impl SortKey {
    /// The sort key with the given fields, the tie-break field last.
    pub fn new(fields: Vec<SortField>) -> (r: SortKey)
        ensures
            r.fields == fields,
    {
        SortKey { fields }
    }

    /// The number of fields.
    pub fn arity(&self) -> (n: usize)
        ensures
            n == self@.len(),
    {
        self.fields.len()
    }

    /// Whether `a` comes strictly before `b` in this order.
    pub fn precedes(&self, a: &SortKeyValue, b: &SortKeyValue) -> (r: bool)
        ensures
            r == precedes(self@, a@, b@),
    {
        let mut i: usize = 0;
        while i < self.fields.len() && i < a.parts.len() && i < b.parts.len()
            invariant
                i <= self.fields.len(),
                i <= a.parts.len(),
                i <= b.parts.len(),
                forall|j: int| 0 <= j < i ==> a@[j] == b@[j],
            decreases self.fields.len() - i,
        {
            if !a.parts[i].same(&b.parts[i]) {
                proof {
                    lemma_precedes_skip_equal(self@, a@, b@, 0, i as int);
                }
                if self.fields[i].descending {
                    return b.parts[i].less(&a.parts[i]);
                } else {
                    return a.parts[i].less(&b.parts[i]);
                }
            }
            i += 1;
        }
        proof {
            lemma_precedes_skip_equal(self@, a@, b@, 0, i as int);
        }
        false
    }
}

} // verus!
