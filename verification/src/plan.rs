//! The range-query planner: from a page request to what the store is
//! asked for.

use crate::cursor::{decode, key_of_cursor};
use crate::error::PageError;
use crate::key::{
    lemma_part_irreflexive, lemma_precedes_skip_equal, part_before, part_less, part_rank,
    precedes, precedes_from, KeyPart, Part, SortKey, SortKeyValue,
};
use vstd::prelude::*;

verus! {

/// The page size used where a request names none.
pub const DEFAULT_LIMIT: i32 = 25;

/// What a caller asks for. At most one of `after`, `before` and `skip` is
/// meant per call; where several are given, `after` wins over `before`,
/// and either cursor wins over `skip`.
#[derive(Debug, PartialEq, Eq)]
pub struct PageRequest {
    pub limit: Option<i32>,
    pub after: Option<String>,
    pub before: Option<String>,
    pub skip: Option<i32>,
}

/// Mathematical model of a range predicate.
pub enum Range {
    /// Every position.
    All,
    /// Positions strictly after the key value.
    After(Seq<Part>),
    /// Positions strictly before the key value.
    Before(Seq<Part>),
}

/// The range predicate handed to the store.
#[derive(Debug, PartialEq, Eq)]
pub enum Bound {
    All,
    After(SortKeyValue),
    Before(SortKeyValue),
}

impl View for Bound {
    type V = Range;

    open spec fn view(&self) -> Range {
        match self {
            Bound::All => Range::All,
            Bound::After(k) => Range::After(k@),
            Bound::Before(k) => Range::Before(k@),
        }
    }
}

/// Mathematical model of a query plan.
pub struct Plan {
    pub limit: int,
    pub skip: int,
    pub range: Range,
}

impl Plan {
    /// One record more than the page holds, to see whether more follow.
    pub open spec fn fetch_limit(self) -> int {
        self.limit + 1
    }

    /// Whether the store walks the sort order backwards.
    pub open spec fn reversed(self) -> bool {
        self.range is Before
    }
}

/// What the store is asked for: the range predicate, the number of
/// records to leave out, and the page size behind the fetch limit.
#[derive(Debug, PartialEq, Eq)]
pub struct QueryPlan {
    pub limit: u32,
    pub skip: u32,
    pub bound: Bound,
}

impl View for QueryPlan {
    type V = Plan;

    open spec fn view(&self) -> Plan {
        Plan { limit: self.limit as int, skip: self.skip as int, range: self.bound@ }
    }
}

/// The key value behind a cursor of the given sort key: the token must be
/// well formed and hold one part per sort field.
pub open spec fn boundary(order: Seq<bool>, token: Seq<char>) -> Option<Seq<Part>> {
    match key_of_cursor(token) {
        Some(k) => if k.len() == order.len() {
            Some(k)
        } else {
            None
        },
        None => None,
    }
}

/// The page size that a request asks for.
pub open spec fn effective_limit(request: PageRequest) -> int {
    match request.limit {
        Some(l) => l as int,
        None => DEFAULT_LIMIT as int,
    }
}

/// The plan that answers a request, or the reason there is none.
///
/// A limit that is not positive is refused first. Then the one
/// parameter that counts is looked at: `after` if present, else `before`,
/// else `skip`; the others are not examined.
pub open spec fn planned(order: Seq<bool>, request: PageRequest) -> Result<Plan, PageError> {
    let limit = effective_limit(request);
    if limit <= 0 {
        Err(PageError::InvalidArgument)
    } else if let Some(token) = request.after {
        match boundary(order, token@) {
            Some(k) => Ok(Plan { limit, skip: 0, range: Range::After(k) }),
            None => Err(PageError::InvalidCursor),
        }
    } else if let Some(token) = request.before {
        match boundary(order, token@) {
            Some(k) => Ok(Plan { limit, skip: 0, range: Range::Before(k) }),
            None => Err(PageError::InvalidCursor),
        }
    } else {
        match request.skip {
            Some(s) => if s < 0 {
                Err(PageError::InvalidArgument)
            } else {
                Ok(Plan { limit, skip: s as int, range: Range::All })
            },
            None => Ok(Plan { limit, skip: 0, range: Range::All }),
        }
    }
}

impl PageRequest {
    /// The request for a first page of the default size.
    pub fn first_page() -> (r: PageRequest)
        ensures
            r == (PageRequest { limit: None, after: None, before: None, skip: None }),
    {
        PageRequest { limit: None, after: None, before: None, skip: None }
    }
}

impl QueryPlan {
    /// The number of records to fetch: one more than the page holds.
    pub fn fetch_limit(&self) -> (n: u64)
        ensures
            n == self@.fetch_limit(),
    {
        self.limit as u64 + 1
    }

    /// Whether the store is to walk the sort order backwards.
    pub fn reversed(&self) -> (r: bool)
        ensures
            r == self@.reversed(),
    {
        match self.bound {
            Bound::Before(_) => true,
            _ => false,
        }
    }
}

fn read_boundary(order: &SortKey, token: &String) -> (r: Option<SortKeyValue>)
    ensures
        match boundary(order@, token@) {
            Some(k) => r matches Some(key) && key@ == k,
            None => r is None,
        },
{
    match decode(token.as_str()) {
        Ok(key) => if key.arity() == order.arity() {
            Some(key)
        } else {
            None
        },
        Err(_) => None,
    }
}

/// Plans the range query that answers `request` under the sort order
/// `order`.
pub fn plan(order: &SortKey, request: &PageRequest) -> (r: Result<QueryPlan, PageError>)
    ensures
        match planned(order@, *request) {
            Ok(p) => r matches Ok(q) && q@ == p,
            Err(e) => r == Err::<QueryPlan, PageError>(e),
        },
{
    let limit: i32 = match request.limit {
        Some(l) => l,
        None => DEFAULT_LIMIT,
    };
    if limit <= 0 {
        return Err(PageError::InvalidArgument);
    }
    let limit = limit as u32;
    match &request.after {
        Some(token) => {
            return match read_boundary(order, token) {
                Some(key) => Ok(QueryPlan { limit, skip: 0, bound: Bound::After(key) }),
                None => Err(PageError::InvalidCursor),
            };
        },
        None => {},
    }
    match &request.before {
        Some(token) => {
            return match read_boundary(order, token) {
                Some(key) => Ok(QueryPlan { limit, skip: 0, bound: Bound::Before(key) }),
                None => Err(PageError::InvalidCursor),
            };
        },
        None => {},
    }
    match request.skip {
        Some(s) => if s < 0 {
            Err(PageError::InvalidArgument)
        } else {
            Ok(QueryPlan { limit, skip: s as u32, bound: Bound::All })
        },
        None => Ok(QueryPlan { limit, skip: 0, bound: Bound::All }),
    }
}


/// How a field is compared with the cursor's part.
#[derive(Clone, Copy, Debug, PartialEq, Eq, Structural)]
pub enum Comparison {
    /// The field is strictly smaller than the cursor's part.
    Less,
    /// The field is strictly greater than the cursor's part.
    Greater,
}

/// One alternative of a range predicate: the first `prefix` sort fields
/// equal the cursor's parts, and the next one compares with the cursor's
/// part as `comparison` says.
#[derive(Clone, Copy, Debug, PartialEq, Eq, Structural)]
pub struct Clause {
    pub prefix: usize,
    pub comparison: Comparison,
}

/// The comparison that moves on from the cursor in a field: greater in
/// an ascending field walked forwards or a descending one walked
/// backwards, smaller otherwise.
pub open spec fn moving_on(descending: bool, backward: bool) -> Comparison {
    if descending != backward {
        Comparison::Less
    } else {
        Comparison::Greater
    }
}

/// A record with the key value `key` meets the alternative.
pub open spec fn clause_holds(clause: Clause, cursor: Seq<Part>, key: Seq<Part>) -> bool {
    &&& forall|j: int| 0 <= j < clause.prefix ==> key[j] == cursor[j]
    &&& match clause.comparison {
        Comparison::Less => part_less(key[clause.prefix as int], cursor[clause.prefix as int]),
        Comparison::Greater => part_less(cursor[clause.prefix as int], key[clause.prefix as int]),
    }
}

/// The alternatives of the range predicate: none where every position is
/// meant, else one per sort field.
pub open spec fn range_clauses(order: Seq<bool>, range: Range) -> Seq<Clause> {
    match range {
        Range::All => Seq::empty(),
        Range::After(_) => Seq::new(
            order.len(),
            |i: int| Clause { prefix: i as usize, comparison: moving_on(order[i], false) },
        ),
        Range::Before(_) => Seq::new(
            order.len(),
            |i: int| Clause { prefix: i as usize, comparison: moving_on(order[i], true) },
        ),
    }
}

/// A record with the key value `key` meets one of the alternatives, or
/// every position is meant.
pub open spec fn clauses_hold(order: Seq<bool>, range: Range, key: Seq<Part>) -> bool {
    match range {
        Range::All => true,
        Range::After(c) => exists|i: int|
            0 <= i < order.len() && clause_holds(#[trigger] range_clauses(order, range)[i], c, key),
        Range::Before(c) => exists|i: int|
            0 <= i < order.len() && clause_holds(#[trigger] range_clauses(order, range)[i], c, key),
    }
}

/// A record with the key value `key` lies in the range: strictly after
/// the cursor, strictly before it, or anywhere.
pub open spec fn in_range(order: Seq<bool>, range: Range, key: Seq<Part>) -> bool {
    match range {
        Range::All => true,
        Range::After(c) => precedes(order, c, key),
        Range::Before(c) => precedes(order, key, c),
    }
}

proof fn lemma_first_difference(order: Seq<bool>, a: Seq<Part>, b: Seq<Part>, i: int) -> (k: int)
    requires
        precedes_from(order, a, b, i),
        0 <= i,
    ensures
        i <= k < order.len(),
        k < a.len(),
        k < b.len(),
        forall|j: int| i <= j < k ==> a[j] == b[j],
        part_before(order[k], a[k], b[k]),
    decreases order.len() - i,
{
    if a[i] != b[i] {
        i
    } else {
        lemma_first_difference(order, a, b, i + 1)
    }
}

/// The alternatives say what the range means: a record meets one of them
/// exactly when its key value lies in the range.
pub proof fn lemma_clauses_are_the_range(order: Seq<bool>, range: Range, key: Seq<Part>)
    requires
        order.len() <= usize::MAX,
        key.len() == order.len(),
        range matches Range::After(c) ==> c.len() == order.len(),
        range matches Range::Before(c) ==> c.len() == order.len(),
    ensures
        clauses_hold(order, range, key) == in_range(order, range, key),
{
    let clauses = range_clauses(order, range);
    match range {
        Range::All => {},
        Range::After(c) => {
            if precedes(order, c, key) {
                let k = lemma_first_difference(order, c, key, 0);
                assert(clause_holds(clauses[k], c, key));
            }
            if clauses_hold(order, range, key) {
                let i = choose|i: int|
                    0 <= i < order.len() && clause_holds(
                        #[trigger] range_clauses(order, range)[i],
                        c,
                        key,
                    );
                lemma_precedes_skip_equal(order, c, key, 0, i);
                lemma_part_irreflexive(c[i]);
            }
        },
        Range::Before(c) => {
            if precedes(order, key, c) {
                let k = lemma_first_difference(order, key, c, 0);
                assert(clause_holds(clauses[k], c, key));
            }
            if clauses_hold(order, range, key) {
                let i = choose|i: int|
                    0 <= i < order.len() && clause_holds(
                        #[trigger] range_clauses(order, range)[i],
                        c,
                        key,
                    );
                lemma_precedes_skip_equal(order, key, c, 0, i);
                lemma_part_irreflexive(c[i]);
            }
        },
    }
}

impl QueryPlan {
    /// The range predicate as alternatives that a store can test field
    /// by field: a record is in the range when it meets one of them.
    /// There is none where the plan has no cursor.
    pub fn clauses(&self, order: &SortKey) -> (r: Vec<Clause>)
        ensures
            r@ == range_clauses(order@, self@.range),
    {
        let mut out: Vec<Clause> = Vec::new();
        let backward = match self.bound {
            Bound::All => {
                assert(out@ =~= range_clauses(order@, self@.range));
                return out;
            },
            Bound::After(_) => false,
            Bound::Before(_) => true,
        };
        let mut i: usize = 0;
        while i < order.fields.len()
            invariant
                i <= order.fields@.len(),
                out@.len() == i,
                !(self.bound is All),
                backward == (self.bound is Before),
                forall|j: int| 0 <= j < i ==> out@[j] == range_clauses(order@, self@.range)[j],
            decreases order.fields@.len() - i,
        {
            let comparison = if order.fields[i].descending != backward {
                Comparison::Less
            } else {
                Comparison::Greater
            };
            out.push(Clause { prefix: i, comparison });
            i += 1;
        }
        assert(out@ =~= range_clauses(order@, self@.range));
        out
    }

    /// The direction in which the store sorts each field: the sort key's
    /// own, or its reverse where the plan walks backwards.
    pub fn directions(&self, order: &SortKey) -> (r: Vec<bool>)
        ensures
            r@.len() == order@.len(),
            forall|i: int| 0 <= i < r@.len() ==> r@[i] == (order@[i] != self@.reversed()),
    {
        let backward = self.reversed();
        let mut out: Vec<bool> = Vec::new();
        let mut i: usize = 0;
        while i < order.fields.len()
            invariant
                i <= order.fields@.len(),
                out@.len() == i,
                backward == self@.reversed(),
                forall|j: int| 0 <= j < i ==> out@[j] == (order@[j] != backward),
            decreases order.fields@.len() - i,
        {
            out.push(order.fields[i].descending != backward);
            i += 1;
        }
        out
    }
}


/// Mathematical model of a test on one field.
pub enum Test {
    Absent,
    Present,
    Number,
    Text,
    Below(Part),
    Above(Part),
}

/// One test that a store applies to a field. A store compares a field
/// with a value only among values of one kind, so a comparison across
/// kinds is spelt out as tests on the kind.
#[derive(Debug, PartialEq, Eq)]
pub enum Condition {
    /// The field holds no value.
    Absent,
    /// The field holds a value.
    Present,
    /// The field holds a number.
    Number,
    /// The field holds text.
    Text,
    /// The field holds a value of the kind of the part, smaller than it.
    Below(KeyPart),
    /// The field holds a value of the kind of the part, greater than it.
    Above(KeyPart),
}

impl View for Condition {
    type V = Test;

    open spec fn view(&self) -> Test {
        match self {
            Condition::Absent => Test::Absent,
            Condition::Present => Test::Present,
            Condition::Number => Test::Number,
            Condition::Text => Test::Text,
            Condition::Below(p) => Test::Below(p@),
            Condition::Above(p) => Test::Above(p@),
        }
    }
}

/// The field value `v` passes the test.
pub open spec fn meets(test: Test, v: Part) -> bool {
    match test {
        Test::Absent => v is Null,
        Test::Present => !(v is Null),
        Test::Number => v is Int,
        Test::Text => v is Text,
        Test::Below(p) => part_rank(v) == part_rank(p) && part_less(v, p),
        Test::Above(p) => part_rank(v) == part_rank(p) && part_less(p, v),
    }
}

/// The field value `v` passes one of the tests.
pub open spec fn meets_any(tests: Seq<Test>, v: Part) -> bool {
    exists|i: int| 0 <= i < tests.len() && meets(#[trigger] tests[i], v)
}

/// The tests that together say that a field compares with `part` as
/// asked, absent values coming before numbers and numbers before text.
pub open spec fn tests_for(part: Part, comparison: Comparison) -> Seq<Test> {
    match (comparison, part) {
        (Comparison::Less, Part::Null) => Seq::empty(),
        (Comparison::Less, Part::Int(_)) => seq![Test::Below(part), Test::Absent],
        (Comparison::Less, Part::Text(_)) => seq![Test::Below(part), Test::Number, Test::Absent],
        (Comparison::Greater, Part::Null) => seq![Test::Present],
        (Comparison::Greater, Part::Int(_)) => seq![Test::Above(part), Test::Text],
        (Comparison::Greater, Part::Text(_)) => seq![Test::Above(part)],
    }
}

/// The models of a list of conditions.
pub open spec fn tests_of(conditions: Seq<Condition>) -> Seq<Test> {
    Seq::new(conditions.len(), |i: int| conditions[i]@)
}

/// The tests mean the order: a field value passes one of the tests for
/// a part exactly when it is smaller than the part, or greater, as
/// asked.
pub proof fn lemma_tests_mean_the_order(part: Part, comparison: Comparison, v: Part)
    ensures
        meets_any(tests_for(part, comparison), v) == match comparison {
            Comparison::Less => part_less(v, part),
            Comparison::Greater => part_less(part, v),
        },
{
    let tests = tests_for(part, comparison);
    let wanted = match comparison {
        Comparison::Less => part_less(v, part),
        Comparison::Greater => part_less(part, v),
    };
    if wanted {
        match (comparison, part) {
            (Comparison::Less, Part::Null) => {},
            (Comparison::Less, Part::Int(_)) => {
                if v is Null {
                    assert(meets(tests[1], v));
                } else {
                    assert(meets(tests[0], v));
                }
            },
            (Comparison::Less, Part::Text(_)) => {
                if v is Null {
                    assert(meets(tests[2], v));
                } else if v is Int {
                    assert(meets(tests[1], v));
                } else {
                    assert(meets(tests[0], v));
                }
            },
            (Comparison::Greater, Part::Null) => {
                assert(meets(tests[0], v));
            },
            (Comparison::Greater, Part::Int(_)) => {
                if v is Text {
                    assert(meets(tests[1], v));
                } else {
                    assert(meets(tests[0], v));
                }
            },
            (Comparison::Greater, Part::Text(_)) => {
                assert(meets(tests[0], v));
            },
        }
    }
}

/// The conditions under which a field compares with `part` as asked:
/// what a store is to test, one condition or another, for a record to
/// lie on the asked side of the part in that field.
pub fn store_conditions(part: &KeyPart, comparison: Comparison) -> (r: Vec<Condition>)
    ensures
        tests_of(r@) == tests_for(part@, comparison),
        forall|v: Part|
            #[trigger] meets_any(tests_of(r@), v) == match comparison {
                Comparison::Less => part_less(v, part@),
                Comparison::Greater => part_less(part@, v),
            },
{
    let mut out: Vec<Condition> = Vec::new();
    match comparison {
        Comparison::Less => match part {
            KeyPart::Null => {},
            KeyPart::Int(_) => {
                out.push(Condition::Below(part.duplicate()));
                out.push(Condition::Absent);
            },
            KeyPart::Text(_) => {
                out.push(Condition::Below(part.duplicate()));
                out.push(Condition::Number);
                out.push(Condition::Absent);
            },
        },
        Comparison::Greater => match part {
            KeyPart::Null => {
                out.push(Condition::Present);
            },
            KeyPart::Int(_) => {
                out.push(Condition::Above(part.duplicate()));
                out.push(Condition::Text);
            },
            KeyPart::Text(_) => {
                out.push(Condition::Above(part.duplicate()));
            },
        },
    }
    proof {
        assert(tests_of(out@) =~= tests_for(part@, comparison));
        assert forall|v: Part|
            #[trigger] meets_any(tests_of(out@), v) == match comparison {
                Comparison::Less => part_less(v, part@),
                Comparison::Greater => part_less(part@, v),
            } by {
            lemma_tests_mean_the_order(part@, comparison, v);
        }
    }
    out
}


/// Mathematical model of one alternative of a range predicate, as a
/// store tests it: the leading sort fields equal the given parts, and
/// the field after them passes one of the tests.
pub struct Choice {
    pub equal: Seq<Part>,
    pub tests: Seq<Test>,
}

/// One alternative of a range predicate, as a store tests it: the
/// leading sort fields equal the given parts, and the field after them
/// meets one of the conditions.
#[derive(Debug, PartialEq, Eq)]
pub struct Alternative {
    pub equal: Vec<KeyPart>,
    pub conditions: Vec<Condition>,
}

impl View for Alternative {
    type V = Choice;

    open spec fn view(&self) -> Choice {
        Choice {
            equal: Seq::new(self.equal@.len(), |i: int| self.equal@[i]@),
            tests: tests_of(self.conditions@),
        }
    }
}

/// A record with the key value `key` meets the alternative.
pub open spec fn choice_holds(choice: Choice, key: Seq<Part>) -> bool {
    &&& forall|j: int| 0 <= j < choice.equal.len() ==> key[j] == choice.equal[j]
    &&& meets_any(choice.tests, key[choice.equal.len() as int])
}

/// The alternative that a clause comes to for a cursor.
pub open spec fn choice_of(clause: Clause, cursor: Seq<Part>) -> Choice {
    Choice {
        equal: cursor.take(clause.prefix as int),
        tests: tests_for(cursor[clause.prefix as int], clause.comparison),
    }
}

/// The smaller of two lengths.
pub open spec fn shorter(a: nat, b: nat) -> nat {
    if a <= b {
        a
    } else {
        b
    }
}

/// The alternatives of a range predicate for a store: none where every
/// position is meant, else one per sort field that the cursor has a part
/// for.
pub open spec fn alternatives_of(order: Seq<bool>, range: Range) -> Seq<Choice> {
    match range {
        Range::All => Seq::empty(),
        Range::After(c) => Seq::new(
            shorter(order.len(), c.len()),
            |i: int| choice_of(range_clauses(order, range)[i], c),
        ),
        Range::Before(c) => Seq::new(
            shorter(order.len(), c.len()),
            |i: int| choice_of(range_clauses(order, range)[i], c),
        ),
    }
}

/// A record with the key value `key` meets one of the alternatives, or
/// every position is meant.
pub open spec fn alternatives_hold(order: Seq<bool>, range: Range, key: Seq<Part>) -> bool {
    range is All || exists|i: int|
        0 <= i < alternatives_of(order, range).len() && choice_holds(
            #[trigger] alternatives_of(order, range)[i],
            key,
        )
}

proof fn lemma_choice_is_the_clause(clause: Clause, cursor: Seq<Part>, key: Seq<Part>)
    requires
        clause.prefix < cursor.len(),
    ensures
        choice_holds(choice_of(clause, cursor), key) == clause_holds(clause, cursor, key),
{
    lemma_tests_mean_the_order(cursor[clause.prefix as int], clause.comparison, key[clause.prefix as int]);
}

/// The alternatives say what the range means: a record meets one of
/// them exactly when its key value lies in the range.
pub proof fn lemma_alternatives_are_the_range(order: Seq<bool>, range: Range, key: Seq<Part>)
    requires
        order.len() <= usize::MAX,
        key.len() == order.len(),
        range matches Range::After(c) ==> c.len() == order.len(),
        range matches Range::Before(c) ==> c.len() == order.len(),
    ensures
        alternatives_hold(order, range, key) == in_range(order, range, key),
{
    lemma_clauses_are_the_range(order, range, key);
    let clauses = range_clauses(order, range);
    let choices = alternatives_of(order, range);
    let cursor = match range {
        Range::After(c) => c,
        Range::Before(c) => c,
        Range::All => Seq::empty(),
    };
    if !(range is All) {
        assert forall|i: int| 0 <= i < order.len() implies choice_holds(
            #[trigger] choices[i],
            key,
        ) == clause_holds(clauses[i], cursor, key) by {
            lemma_choice_is_the_clause(clauses[i], cursor, key);
        }
        if clauses_hold(order, range, key) {
            let i = choose|i: int|
                0 <= i < order.len() && clause_holds(
                    #[trigger] range_clauses(order, range)[i],
                    cursor,
                    key,
                );
            assert(choice_holds(choices[i], key));
        }
        if alternatives_hold(order, range, key) {
            let i = choose|i: int|
                0 <= i < alternatives_of(order, range).len() && choice_holds(
                    #[trigger] alternatives_of(order, range)[i],
                    key,
                );
            assert(clause_holds(range_clauses(order, range)[i], cursor, key));
        }
    }
}

/// The models of a list of alternatives.
pub open spec fn choices_of(alternatives: Seq<Alternative>) -> Seq<Choice> {
    Seq::new(alternatives.len(), |i: int| alternatives[i]@)
}

fn leading_parts(key: &SortKeyValue, n: usize) -> (r: Vec<KeyPart>)
    requires
        n <= key@.len(),
    ensures
        Seq::new(r@.len(), |i: int| r@[i]@) == key@.take(n as int),
{
    let mut out: Vec<KeyPart> = Vec::new();
    let mut j: usize = 0;
    while j < n
        invariant
            j <= n <= key.parts@.len(),
            out@.len() == j,
            forall|k: int| 0 <= k < j ==> (#[trigger] out@[k])@ == key.parts@[k]@,
        decreases n - j,
    {
        out.push(key.parts[j].duplicate());
        j += 1;
    }
    assert(Seq::new(out@.len(), |i: int| out@[i]@) =~= key@.take(n as int));
    out
}

impl QueryPlan {
    /// The range predicate in the form in which a store tests it: a
    /// record is in the range when it meets one of the alternatives.
    /// There is none where the plan has no cursor.
    pub fn alternatives(&self, order: &SortKey) -> (r: Vec<Alternative>)
        ensures
            choices_of(r@) == alternatives_of(order@, self@.range),
    {
        let mut out: Vec<Alternative> = Vec::new();
        let cursor = match &self.bound {
            Bound::All => {
                assert(choices_of(out@) =~= alternatives_of(order@, self@.range));
                return out;
            },
            Bound::After(key) => key,
            Bound::Before(key) => key,
        };
        let clauses = self.clauses(order);
        let n = if order.fields.len() <= cursor.parts.len() {
            order.fields.len()
        } else {
            cursor.parts.len()
        };
        let mut i: usize = 0;
        while i < n
            invariant
                i <= n,
                n == shorter(order@.len(), cursor@.len()),
                clauses@ == range_clauses(order@, self@.range),
                !(self.bound is All),
                self.bound matches Bound::After(key) ==> key@ == cursor@,
                self.bound matches Bound::Before(key) ==> key@ == cursor@,
                out@.len() == i,
                forall|j: int|
                    0 <= j < i ==> (#[trigger] out@[j])@ == choice_of(clauses@[j], cursor@),
            decreases n - i,
        {
            let clause = clauses[i];
            let equal = leading_parts(cursor, i);
            let conditions = store_conditions(&cursor.parts[i], clause.comparison);
            out.push(Alternative { equal, conditions });
            i += 1;
        }
        assert(choices_of(out@) =~= alternatives_of(order@, self@.range));
        out
    }
}

} // verus!
