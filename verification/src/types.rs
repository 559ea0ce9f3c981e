//! Types carried between stages.
//!
//! A running theme: anything a model inferred is stored next to the decision the
//! code made about it, never in place of it.
use vstd::prelude::*;
use vstd::string::*;
use crate::scan::{blank, is_blank_str, trim};
use crate::text::{all_ascii, is_space, lower_all, lowercase, str_eq, to_lower, views};

verus! {

/// A floating-point number as this library carries it: the bit pattern it came
/// with and the text it is shown as. No arithmetic is done on it here.
#[derive(Debug)]
pub struct Figure {
    pub bits: u64,
    pub text: String,
}

impl Clone for Figure {
    fn clone(&self) -> (r: Self)
        ensures
            r == *self,
    {
        Figure { bits: self.bits, text: self.text.clone() }
    }
}

/// A floating-point number by its IEEE 754 double bit pattern.
#[derive(Debug, Clone, Copy, PartialEq, Eq, Structural)]
pub struct Real {
    pub bits: u64,
}

impl Real {
    /// A number that orders finite doubles as they are ordered: the magnitude's
    /// bits, negated below zero. Both zeros have the same.
    pub open spec fn rank(self) -> int {
        if self.bits < 0x8000_0000_0000_0000 {
            self.bits as int
        } else {
            0x8000_0000_0000_0000 - self.bits
        }
    }

    /// Is this finite number less than another?
    pub fn below(self, other: Real) -> (r: bool)
        ensures
            r == (self.rank() < other.rank()),
    {
        self.order() < other.order()
    }

    fn order(self) -> (r: i128)
        ensures
            r == self.rank(),
    {
        if self.bits < 0x8000_0000_0000_0000 {
            self.bits as i128
        } else {
            0x8000_0000_0000_0000i128 - self.bits as i128
        }
    }
}

/// What the user is actually asking for: one answer, or many records.
#[derive(Debug, Clone, Copy, PartialEq, Eq, Structural)]
pub enum MissionKind {
    /// Produce an answer supported by cited evidence.
    Answer,
    /// Collect as many distinct verified records as asked for.
    Harvest,
}

impl Default for MissionKind {
    fn default() -> (r: Self)
        ensures
            r == MissionKind::Answer,
    {
        MissionKind::Answer
    }
}

/// The parsed intent of the user's query.
#[derive(Debug, Clone)]
pub struct Mission {
    pub query: String,
    pub kind: MissionKind,
    /// How many records an enumeration wants. `None` means as many as exist.
    pub target_count: Option<usize>,
    /// Field names each harvested record should carry.
    pub fields: Vec<String>,
    /// The subject, stripped of instruction phrasing.
    pub topic: String,
    /// Constraints a record must satisfy to count.
    pub constraints: Vec<String>,
    /// Plain-English glosses, parallel to `constraints`.
    pub constraint_glosses: Vec<String>,
    /// Fields whose value is a determination, not a copyable fact.
    pub determination_fields: Vec<String>,
    /// Parallel to `constraints`: a listing page would not state this one.
    pub unlistable_constraints: Vec<bool>,
    /// The name of the list a directory would publish for this mission.
    pub listing_core: String,
    /// Proper nouns that define which items count.
    pub anchors: Vec<String>,
    /// Geographic or temporal scope.
    pub scope: String,
    /// A single-fact lookup.
    pub simple: bool,
    /// The field that names the entity being harvested.
    pub entity_field: String,
    /// What kind of thing each requested item is.
    pub entity_type: String,
    /// The answer depends on when the question is asked.
    pub time_sensitive: bool,
}

impl Default for Mission {
    fn default() -> (r: Self)
        ensures
            r.query@.len() == 0,
            r.kind == MissionKind::Answer,
            r.target_count is None,
            r.fields@.len() == 0,
            r.topic@.len() == 0,
            r.constraints@.len() == 0,
            r.constraint_glosses@.len() == 0,
            r.determination_fields@.len() == 0,
            r.unlistable_constraints@.len() == 0,
            r.listing_core@.len() == 0,
            r.anchors@.len() == 0,
            r.scope@.len() == 0,
            !r.simple,
            r.entity_field@.len() == 0,
            r.entity_type@.len() == 0,
            !r.time_sensitive,
    {
        Mission {
            query: String::new(),
            kind: MissionKind::Answer,
            target_count: None,
            fields: Vec::new(),
            topic: String::new(),
            constraints: Vec::new(),
            constraint_glosses: Vec::new(),
            determination_fields: Vec::new(),
            unlistable_constraints: Vec::new(),
            listing_core: String::new(),
            anchors: Vec::new(),
            scope: String::new(),
            simple: false,
            entity_field: String::new(),
            entity_type: String::new(),
            time_sensitive: false,
        }
    }
}

/// A field name that can carry an entity's identity.
pub open spec fn names_an_entity(field: Seq<char>) -> bool {
    ||| field == "name"@
    ||| field == "nombre"@
    ||| field == "nom"@
    ||| field == "title"@
    ||| field == "organisation"@
    ||| field == "organization"@
    ||| field == "entity"@
    ||| field == "company"@
    ||| field == "municipality"@
    ||| field == "municipio"@
    ||| field == "ayuntamiento"@
}

/// The first field from `i` on whose lower-case name can carry an identity.
pub open spec fn first_identity(fields: Seq<Seq<char>>, i: int) -> Option<int>
    decreases fields.len() - i,
{
    if i < 0 || i >= fields.len() {
        None
    } else if names_an_entity(lowercase(fields[i])) {
        Some(i)
    } else {
        first_identity(fields, i + 1)
    }
}

/// The field that names the entity: the first known identity, else the first
/// field, else `name`.
pub open spec fn entity_field_of(fields: Seq<Seq<char>>) -> Seq<char> {
    match first_identity(fields, 0) {
        Some(i) => fields[i],
        None => if fields.len() > 0 {
            fields[0]
        } else {
            "name"@
        },
    }
}

fn is_entity_name(f: &str) -> (r: bool)
    ensures
        r == names_an_entity(f@),
{
    str_eq(f, "name") || str_eq(f, "nombre") || str_eq(f, "nom") || str_eq(f, "title") || str_eq(
        f,
        "organisation",
    ) || str_eq(f, "organization") || str_eq(f, "entity") || str_eq(f, "company") || str_eq(
        f,
        "municipality",
    ) || str_eq(f, "municipio") || str_eq(f, "ayuntamiento")
}

fn identity_index(fields: &[String]) -> (r: Option<usize>)
    ensures
        match r {
            Some(i) => i < fields@.len() && first_identity(views(fields@), 0) == Some(i as int),
            None => first_identity(views(fields@), 0) is None,
        },
{
    let mut i: usize = 0;
    while i < fields.len()
        invariant
            i <= fields@.len(),
            first_identity(views(fields@), i as int) == first_identity(views(fields@), 0),
        decreases fields@.len() - i,
    {
        let low = to_lower(fields[i].as_str());
        if is_entity_name(low.as_str()) {
            return Some(i);
        }
        i += 1;
    }
    None
}

impl Mission {
    pub fn is_harvest(&self) -> (r: bool)
        ensures
            r == (self.kind == MissionKind::Harvest),
    {
        self.kind == MissionKind::Harvest
    }

    /// Whether enough has been collected to stop. With no explicit target only
    /// exhaustion stops a harvest.
    pub fn satisfied_by(&self, count: usize) -> (r: bool)
        ensures
            r == (self.target_count matches Some(target) && count >= target),
    {
        match self.target_count {
            Some(target) => count >= target,
            None => false,
        }
    }

    /// Pick the field that names the entity: a well-known identity field if there
    /// is one, else the first field, else `name`.
    pub fn pick_entity_field(fields: &[String]) -> (r: String)
        ensures
            r@ == entity_field_of(views(fields@)),
    {
        match identity_index(fields) {
            Some(i) => fields[i].clone(),
            None => {
                if fields.len() > 0 {
                    fields[0].clone()
                } else {
                    "name".to_owned()
                }
            },
        }
    }

    /// True when no field can identify an entity on its own.
    pub fn needs_identity_field(fields: &[String]) -> (r: bool)
        ensures
            r == (first_identity(views(fields@), 0) is None),
    {
        identity_index(fields).is_none()
    }
}

/// One search hit, as observed. Nothing here is inferred.
#[derive(Debug, Clone)]
pub struct Hit {
    pub title: String,
    pub url: String,
    pub snippet: String,
    /// Which search engines returned this URL.
    pub engines: Vec<String>,
}

/// A search hit plus what the judge thought of it.
#[derive(Debug, Clone)]
pub struct Candidate {
    pub hit: Hit,
    pub relevance: Figure,
    pub authority: Figure,
    pub slop: Figure,
    pub rank: Figure,
    pub kept: bool,
    pub drop_reason: Option<String>,
}

/// A chunk of a fetched page.
#[derive(Debug, Clone)]
pub struct Passage {
    pub url: String,
    pub title: String,
    pub text: String,
    pub supports: Figure,
    pub injection: Figure,
    pub currency: Figure,
}

/// Where a specific field value was verified.
#[derive(Debug, Clone)]
pub struct FieldSource {
    pub source_url: String,
    pub grounding: Figure,
}

/// One harvested record: a set of fields, where it came from, and how well the
/// source backs it.
#[derive(Debug, Clone)]
pub struct Record {
    /// Field names and values, each name once.
    pub fields: Vec<(String, String)>,
    pub source_url: String,
    pub source_title: Option<String>,
    pub grounding: Figure,
    /// Per-field provenance, each name once.
    pub provenance: Vec<(String, FieldSource)>,
    pub constraint_support: Figure,
    pub constraint_status: Vec<ConstraintVerdict>,
    pub entity_binding: EntityBinding,
}

/// What a passage establishes about one mission constraint for one record.
#[derive(Debug, Clone, Copy, PartialEq, Eq, Structural)]
pub enum ConstraintVerdict {
    /// The passage states or clearly implies the entity meets the criterion.
    Supports,
    /// The passage states something that cannot be true if it does.
    Contradicts,
    /// The passage says nothing either way.
    NotAddressed,
    /// The criterion is touched on, but the meaning or the subject is unclear.
    Ambiguous,
    /// Both supporting and conflicting statements are present.
    Mixed,
    /// No check has run yet.
    Unchecked,
}

impl Default for ConstraintVerdict {
    fn default() -> (r: Self)
        ensures
            r == ConstraintVerdict::Unchecked,
    {
        ConstraintVerdict::Unchecked
    }
}

impl ConstraintVerdict {
    pub open spec fn label(self) -> Seq<char> {
        match self {
            ConstraintVerdict::Supports => "supports"@,
            ConstraintVerdict::Contradicts => "contradicts"@,
            ConstraintVerdict::NotAddressed => "not_addressed"@,
            ConstraintVerdict::Ambiguous => "ambiguous"@,
            ConstraintVerdict::Mixed => "mixed"@,
            ConstraintVerdict::Unchecked => "unchecked"@,
        }
    }

    /// The verdict that a label names; anything unrecognised names silence.
    pub open spec fn named(label: Seq<char>) -> ConstraintVerdict {
        if label == "supports"@ {
            ConstraintVerdict::Supports
        } else if label == "contradicts"@ {
            ConstraintVerdict::Contradicts
        } else if label == "ambiguous"@ {
            ConstraintVerdict::Ambiguous
        } else if label == "mixed"@ {
            ConstraintVerdict::Mixed
        } else {
            ConstraintVerdict::NotAddressed
        }
    }

    /// Only `Supports` counts a constraint as met.
    pub fn is_satisfied(self) -> (r: bool)
        ensures
            r == (self == ConstraintVerdict::Supports),
    {
        self == ConstraintVerdict::Supports
    }

    pub fn as_str(self) -> (r: &'static str)
        ensures
            r@ == self.label(),
    {
        match self {
            ConstraintVerdict::Supports => "supports",
            ConstraintVerdict::Contradicts => "contradicts",
            ConstraintVerdict::NotAddressed => "not_addressed",
            ConstraintVerdict::Ambiguous => "ambiguous",
            ConstraintVerdict::Mixed => "mixed",
            ConstraintVerdict::Unchecked => "unchecked",
        }
    }

    /// Read a judge's label. Anything unrecognised, the empty string included,
    /// reads as `NotAddressed`: a failed guard is never an open door.
    pub fn from_choice(label: &str) -> (r: Self)
        ensures
            r == ConstraintVerdict::named(trim(label@)),
    {
        let t = crate::scan::trim_str(label);
        if str_eq(t, "supports") {
            ConstraintVerdict::Supports
        } else if str_eq(t, "contradicts") {
            ConstraintVerdict::Contradicts
        } else if str_eq(t, "ambiguous") {
            ConstraintVerdict::Ambiguous
        } else if str_eq(t, "mixed") {
            ConstraintVerdict::Mixed
        } else {
            ConstraintVerdict::NotAddressed
        }
    }
}

/// What relationship the organisation a page describes has to the target entity.
#[derive(Debug, Clone, Copy, PartialEq, Eq, Structural)]
pub enum EntityBinding {
    /// The entity itself, including an official department or office of it.
    Same,
    /// A parent, member, subsidiary, federation, supplier or contractor.
    Related,
    /// Unrelated, or a same-named place or body elsewhere.
    Different,
    /// The passage does not establish which organisation it is about.
    Unresolved,
}

impl Default for EntityBinding {
    fn default() -> (r: Self)
        ensures
            r == EntityBinding::Unresolved,
    {
        EntityBinding::Unresolved
    }
}

impl EntityBinding {
    pub open spec fn label(self) -> Seq<char> {
        match self {
            EntityBinding::Same => "same"@,
            EntityBinding::Related => "related"@,
            EntityBinding::Different => "different"@,
            EntityBinding::Unresolved => "unresolved"@,
        }
    }

    pub open spec fn named(label: Seq<char>) -> EntityBinding {
        if label == "same"@ {
            EntityBinding::Same
        } else if label == "related"@ {
            EntityBinding::Related
        } else if label == "different"@ {
            EntityBinding::Different
        } else {
            EntityBinding::Unresolved
        }
    }

    /// How much a binding settles: a page that resolved the entity outranks one
    /// that did not.
    pub open spec fn weight(self) -> nat {
        match self {
            EntityBinding::Same => 3,
            EntityBinding::Related => 2,
            EntityBinding::Unresolved => 1,
            EntityBinding::Different => 0,
        }
    }

    pub open spec fn merged(self, other: EntityBinding) -> EntityBinding {
        if other.weight() > self.weight() {
            other
        } else {
            self
        }
    }

    pub fn is_unresolved(&self) -> (r: bool)
        ensures
            r == (*self == EntityBinding::Unresolved),
    {
        *self == EntityBinding::Unresolved
    }

    pub fn as_str(self) -> (r: &'static str)
        ensures
            r@ == self.label(),
    {
        match self {
            EntityBinding::Same => "same",
            EntityBinding::Related => "related",
            EntityBinding::Different => "different",
            EntityBinding::Unresolved => "unresolved",
        }
    }

    /// Read a judge's label; an unrecognised or missing one is `Unresolved`.
    pub fn from_choice(label: &str) -> (r: Self)
        ensures
            r == EntityBinding::named(trim(label@)),
    {
        let t = crate::scan::trim_str(label);
        if str_eq(t, "same") {
            EntityBinding::Same
        } else if str_eq(t, "related") {
            EntityBinding::Related
        } else if str_eq(t, "different") {
            EntityBinding::Different
        } else {
            EntityBinding::Unresolved
        }
    }

    pub fn rank(self) -> (r: u8)
        ensures
            r == self.weight(),
    {
        match self {
            EntityBinding::Same => 3,
            EntityBinding::Related => 2,
            EntityBinding::Unresolved => 1,
            EntityBinding::Different => 0,
        }
    }

    /// Merge two bindings for the same entity, keeping the more informative one.
    pub fn merge(self, other: Self) -> (r: Self)
        ensures
            r == self.merged(other),
    {
        if other.rank() > self.rank() {
            other
        } else {
            self
        }
    }
}

/// Merging keeps the greatest weight, whatever the order and the grouping.
pub proof fn law_binding_merge_is_a_maximum(a: EntityBinding, b: EntityBinding, c: EntityBinding)
    ensures
        a.merged(b) == b.merged(a),
        a.merged(a) == a,
        a.merged(b).merged(c) == a.merged(b.merged(c)),
        a.merged(b).weight() >= a.weight(),
        a.merged(b).weight() >= b.weight(),
{
}

/// Every verdict a judge can give reads back from its own label; `Unchecked` is
/// no judge's verdict and reads as silence.
pub proof fn law_verdict_labels_read_back(v: ConstraintVerdict)
    ensures
        v != ConstraintVerdict::Unchecked ==> ConstraintVerdict::named(trim(v.label())) == v,
        v == ConstraintVerdict::Unchecked ==> ConstraintVerdict::named(trim(v.label()))
            == ConstraintVerdict::NotAddressed,
{
    reveal_strlit("supports");
    reveal_strlit("contradicts");
    reveal_strlit("not_addressed");
    reveal_strlit("ambiguous");
    reveal_strlit("mixed");
    reveal_strlit("unchecked");
    lemma_tight_trim(v.label());
}

/// Every binding reads back from its own label.
pub proof fn law_binding_labels_read_back(b: EntityBinding)
    ensures
        EntityBinding::named(trim(b.label())) == b,
{
    reveal_strlit("same");
    reveal_strlit("related");
    reveal_strlit("different");
    reveal_strlit("unresolved");
    lemma_tight_trim(b.label());
}

/// A text with no white space at either end trims to itself.
pub proof fn lemma_tight_trim(s: Seq<char>)
    requires
        s.len() > 0,
        !is_space(s[0]),
        !is_space(s.last()),
    ensures
        trim(s) == s,
{
}

/// Two pages' verdicts on one constraint: support from either settles it, and a
/// check that ran outranks one that did not.
pub open spec fn merged_verdict(x: ConstraintVerdict, y: ConstraintVerdict) -> ConstraintVerdict {
    if x == ConstraintVerdict::Supports || y == ConstraintVerdict::Supports {
        ConstraintVerdict::Supports
    } else if x == ConstraintVerdict::Unchecked {
        y
    } else {
        x
    }
}

/// Element by element; the longer list's tail is carried through.
pub open spec fn merged_status(
    a: Seq<ConstraintVerdict>,
    b: Seq<ConstraintVerdict>,
) -> Seq<ConstraintVerdict> {
    let n = if a.len() >= b.len() {
        a.len()
    } else {
        b.len()
    };
    Seq::new(
        n,
        |i: int|
            if i < a.len() && i < b.len() {
                merged_verdict(a[i], b[i])
            } else if i < a.len() {
                a[i]
            } else {
                b[i]
            },
    )
}

/// Element-wise merge of two constraint-status lists for the same entity.
pub fn merge_constraint_status(
    a: &[ConstraintVerdict],
    b: &[ConstraintVerdict],
) -> (r: Vec<ConstraintVerdict>)
    ensures
        r@ == merged_status(a@, b@),
{
    let n: usize = if a.len() >= b.len() {
        a.len()
    } else {
        b.len()
    };
    let mut out: Vec<ConstraintVerdict> = Vec::new();
    let mut i: usize = 0;
    while i < n
        invariant
            i <= n,
            n == merged_status(a@, b@).len(),
            out@ == merged_status(a@, b@).take(i as int),
        decreases n - i,
    {
        let v = if i < a.len() && i < b.len() {
            let x = a[i];
            let y = b[i];
            if x.is_satisfied() || y.is_satisfied() {
                ConstraintVerdict::Supports
            } else if x == ConstraintVerdict::Unchecked {
                y
            } else {
                x
            }
        } else if i < a.len() {
            a[i]
        } else {
            b[i]
        };
        out.push(v);
        i += 1;
        assert(out@ =~= merged_status(a@, b@).take(i as int));
    }
    assert(out@ =~= merged_status(a@, b@));
    out
}

/// A constraint is met after a merge exactly when either page met it, and merging
/// a list with itself or with nothing changes nothing.
pub proof fn law_merge_takes_support_from_either(
    a: Seq<ConstraintVerdict>,
    b: Seq<ConstraintVerdict>,
)
    ensures
        forall|i: int|
            0 <= i < merged_status(a, b).len() ==> ((#[trigger] merged_status(a, b)[i]
                == ConstraintVerdict::Supports) <==> ((i < a.len() && a[i]
                == ConstraintVerdict::Supports) || (i < b.len() && b[i]
                == ConstraintVerdict::Supports))),
        merged_status(a, a) == a,
        merged_status(a, Seq::empty()) == a,
        merged_status(Seq::empty(), b) == b,
{
    assert(merged_status(a, a) =~= a);
    assert(merged_status(a, Seq::empty()) =~= a);
    assert(merged_status(Seq::empty(), b) =~= b);
}

/// The value of a field: that of the first entry under its name, empty when
/// there is none.
pub open spec fn field_value(fields: Seq<(String, String)>, name: Seq<char>, i: int) -> Seq<char>
    decreases fields.len() - i,
{
    if i < 0 || i >= fields.len() {
        Seq::empty()
    } else if fields[i].0@ == name {
        fields[i].1@
    } else {
        field_value(fields, name, i + 1)
    }
}

impl Record {
    /// The value of a field, empty when the record has none.
    pub fn get(&self, field: &str) -> (r: &str)
        ensures
            r@ == field_value(self.fields@, field@, 0),
    {
        let mut i: usize = 0;
        while i < self.fields.len()
            invariant
                i <= self.fields@.len(),
                field_value(self.fields@, field@, i as int) == field_value(
                    self.fields@,
                    field@,
                    0,
                ),
            decreases self.fields@.len() - i,
        {
            if str_eq(self.fields[i].0.as_str(), field) {
                return self.fields[i].1.as_str();
            }
            i += 1;
        }
        proof {
            reveal_strlit("");
        }
        assert(""@ =~= Seq::<char>::empty());
        ""
    }

    /// Every requested field was found, no constraint is open, and the page was not
    /// about another organisation. A record without verdicts has nothing to check.
    pub open spec fn completes(self, mission: Mission) -> bool {
        &&& forall|i: int|
            0 <= i < mission.fields@.len() ==> !blank(
                field_value(self.fields@, (#[trigger] mission.fields@[i])@, 0),
            )
        &&& forall|i: int|
            0 <= i < self.constraint_status@.len() ==> #[trigger] self.constraint_status@[i]
                == ConstraintVerdict::Supports
        &&& self.entity_binding == EntityBinding::Same || self.entity_binding
            == EntityBinding::Unresolved
    }

    /// Is everything known of this record that the mission asks for?
    pub fn is_complete(&self, mission: &Mission) -> (r: bool)
        ensures
            r == self.completes(*mission),
    {
        match self.entity_binding {
            EntityBinding::Same | EntityBinding::Unresolved => {},
            EntityBinding::Related | EntityBinding::Different => {
                return false;
            },
        }
        let mut i: usize = 0;
        while i < self.constraint_status.len()
            invariant
                i <= self.constraint_status@.len(),
                forall|j: int|
                    0 <= j < i ==> #[trigger] self.constraint_status@[j]
                        == ConstraintVerdict::Supports,
            decreases self.constraint_status@.len() - i,
        {
            if !self.constraint_status[i].is_satisfied() {
                assert(self.constraint_status@[i as int] != ConstraintVerdict::Supports);
                return false;
            }
            i += 1;
        }
        let mut k: usize = 0;
        while k < mission.fields.len()
            invariant
                k <= mission.fields@.len(),
                forall|j: int|
                    0 <= j < k ==> !blank(
                        field_value(self.fields@, (#[trigger] mission.fields@[j])@, 0),
                    ),
            decreases mission.fields@.len() - k,
        {
            if is_blank_str(self.get(mission.fields[k].as_str())) {
                assert(blank(field_value(self.fields@, mission.fields@[k as int]@, 0)));
                return false;
            }
            k += 1;
        }
        true
    }
}

/// How a run ended. Reported rather than inferred from the record count.
#[derive(Debug, Clone, Copy, PartialEq, Eq, Structural)]
pub enum Outcome {
    /// The target count was reached, or the question was answered.
    Complete,
    /// Real results, but fewer than asked for.
    Partial,
    /// Nothing usable was found.
    Empty,
    /// Stopped at the round ceiling with progress still being made.
    Truncated,
}

impl Outcome {
    pub open spec fn label(self) -> Seq<char> {
        match self {
            Outcome::Complete => "complete"@,
            Outcome::Partial => "partial"@,
            Outcome::Empty => "empty"@,
            Outcome::Truncated => "truncated"@,
        }
    }

    pub fn as_str(self) -> (r: &'static str)
        ensures
            r@ == self.label(),
    {
        match self {
            Outcome::Complete => "complete",
            Outcome::Partial => "partial",
            Outcome::Empty => "empty",
            Outcome::Truncated => "truncated",
        }
    }
}

/// Token and request accounting, so a run's cost is never a mystery.
#[derive(Debug, Clone)]
pub struct Stats {
    pub rounds: usize,
    pub queries_issued: usize,
    pub pages_fetched: usize,
    pub chunks_examined: usize,
    pub jev_requests: usize,
    pub jev_input_tokens: usize,
    pub jev_cost_usd: Figure,
    pub llm_requests: usize,
    pub llm_prompt_tokens: usize,
    pub llm_completion_tokens: usize,
    pub llm_reasoning_tokens: usize,
    /// `None` when the endpoint never reported a cost. Absent is not zero.
    pub llm_cost_usd: Option<Figure>,
    pub planner_requests: usize,
    pub planner_prompt_tokens: usize,
    pub planner_completion_tokens: usize,
    pub planner_reasoning_tokens: usize,
    pub planner_cost_usd: Option<Figure>,
    pub quarantined: usize,
    pub rejected_ungrounded: usize,
    pub claims_checked: usize,
    pub unsupported_claims: usize,
    pub elapsed_secs: Figure,
    /// Wall clock in whole milliseconds.
    pub elapsed_ms: u64,
    /// Time spent inside each stage, each name once.
    pub stage_ms: Vec<(String, StageTime)>,
    pub entities_discovered: usize,
    pub entities_enriched: usize,
    pub links_followed: usize,
    pub enrich_searches: usize,
    pub excluded_contradicted: usize,
    pub constraints_unverified: usize,
    pub wrong_entity_rejected: usize,
    pub anchor_unmentioned: usize,
    pub category_echoes_dropped: usize,
}

impl Default for Stats {
    /// Nothing done and nothing spent.
    fn default() -> (r: Self)
        ensures
            r.rounds == 0,
            r.queries_issued == 0,
            r.pages_fetched == 0,
            r.chunks_examined == 0,
            r.jev_requests == 0,
            r.jev_input_tokens == 0,
            r.jev_cost_usd.bits == 0 && r.jev_cost_usd.text@ == "0.0000"@,
            r.llm_requests == 0,
            r.llm_prompt_tokens == 0,
            r.llm_completion_tokens == 0,
            r.llm_reasoning_tokens == 0,
            r.llm_cost_usd is None,
            r.planner_requests == 0,
            r.planner_prompt_tokens == 0,
            r.planner_completion_tokens == 0,
            r.planner_reasoning_tokens == 0,
            r.planner_cost_usd is None,
            r.quarantined == 0,
            r.rejected_ungrounded == 0,
            r.claims_checked == 0,
            r.unsupported_claims == 0,
            r.elapsed_secs.bits == 0 && r.elapsed_secs.text@ == "0.0"@,
            r.elapsed_ms == 0,
            r.stage_ms@.len() == 0,
            r.entities_discovered == 0,
            r.entities_enriched == 0,
            r.links_followed == 0,
            r.enrich_searches == 0,
            r.excluded_contradicted == 0,
            r.constraints_unverified == 0,
            r.wrong_entity_rejected == 0,
            r.anchor_unmentioned == 0,
            r.category_echoes_dropped == 0,
    {
        Stats {
            rounds: 0,
            queries_issued: 0,
            pages_fetched: 0,
            chunks_examined: 0,
            jev_requests: 0,
            jev_input_tokens: 0,
            jev_cost_usd: Figure { bits: 0, text: "0.0000".to_owned() },
            llm_requests: 0,
            llm_prompt_tokens: 0,
            llm_completion_tokens: 0,
            llm_reasoning_tokens: 0,
            llm_cost_usd: None,
            planner_requests: 0,
            planner_prompt_tokens: 0,
            planner_completion_tokens: 0,
            planner_reasoning_tokens: 0,
            planner_cost_usd: None,
            quarantined: 0,
            rejected_ungrounded: 0,
            claims_checked: 0,
            unsupported_claims: 0,
            elapsed_secs: Figure { bits: 0, text: "0.0".to_owned() },
            elapsed_ms: 0,
            stage_ms: Vec::new(),
            entities_discovered: 0,
            entities_enriched: 0,
            links_followed: 0,
            enrich_searches: 0,
            excluded_contradicted: 0,
            constraints_unverified: 0,
            wrong_entity_rejected: 0,
            anchor_unmentioned: 0,
            category_echoes_dropped: 0,
        }
    }
}

/// Accumulated time and call count for one stage.
#[derive(Debug, Clone, Copy, PartialEq, Eq, Structural)]
pub struct StageTime {
    pub ms: u64,
    pub calls: u32,
}

impl Default for StageTime {
    fn default() -> (r: Self)
        ensures
            r.ms == 0,
            r.calls == 0,
    {
        StageTime { ms: 0, calls: 0 }
    }
}

/// Everything a run produced.
#[derive(Debug, Clone)]
pub struct ScoutReport {
    pub query: String,
    pub mission: Mission,
    pub outcome: Outcome,
    pub records: Vec<Record>,
    /// Prose written from passages the judge cleared.
    pub answer: Option<String>,
    pub evidence: Vec<Passage>,
    pub sources: Vec<String>,
    pub quarantined_sources: Vec<String>,
    pub notes: Vec<String>,
    pub stats: Stats,
}

// -------------------------------------------------------------------- reading --

/// A record's value of a name is the first that it lists under it, and empty where it lists
/// none.
pub proof fn law_the_first_value_of_a_name_counts(
    fields: Seq<(String, String)>,
    name: Seq<char>,
    i: int,
)
    requires
        0 <= i <= fields.len(),
    ensures
        forall|k: int|
            i <= k < fields.len() && (#[trigger] fields[k]).0@ == name && (forall|j: int|
                i <= j < k ==> (#[trigger] fields[j]).0@ != name) ==> field_value(fields, name, i)
                == fields[k].1@,
        (forall|k: int| i <= k < fields.len() ==> (#[trigger] fields[k]).0@ != name)
            ==> field_value(fields, name, i).len() == 0,
    decreases fields.len() - i,
{
    if i < fields.len() && fields[i].0@ != name {
        law_the_first_value_of_a_name_counts(fields, name, i + 1);
    }
}

/// A record is complete only with a value for every field that was asked for, support for
/// every constraint and a page that is not about somebody else; and with all of that it is.
pub proof fn law_a_complete_record_lacks_nothing(r: Record, mission: Mission, k: int)
    ensures
        r.completes(mission) && 0 <= k < mission.fields@.len() ==> !blank(
            field_value(r.fields@, mission.fields@[k]@, 0),
        ),
        r.completes(mission) && 0 <= k < r.constraint_status@.len() ==> r.constraint_status@[k]
            == ConstraintVerdict::Supports,
        r.entity_binding == EntityBinding::Different || r.entity_binding == EntityBinding::Related
            ==> !r.completes(mission),
        mission.fields@.len() == 0 && r.constraint_status@.len() == 0 && r.entity_binding
            == EntityBinding::Unresolved ==> r.completes(mission),
        mission.fields@.len() == 1 && !blank(field_value(r.fields@, mission.fields@[0]@, 0))
            && r.constraint_status@.len() == 0 && r.entity_binding == EntityBinding::Same
            ==> r.completes(mission),
{
}

/// A check that did not run gives way to one that did, whichever page it is from.
pub proof fn law_a_check_that_ran_counts(x: ConstraintVerdict, y: ConstraintVerdict)
    ensures
        merged_verdict(ConstraintVerdict::Unchecked, y) == y,
        merged_verdict(x, ConstraintVerdict::Unchecked) == x,
        merged_verdict(x, y) == x || merged_verdict(x, y) == y,
        merged_verdict(x, x) == x,
{
}

/// The field that names the entity is one of those asked for; a field with a name for names
/// comes before any other, and the first such before later ones.
pub proof fn law_names_name_the_entity(fields: Seq<Seq<char>>, i: int)
    requires
        0 <= i < fields.len(),
        forall|j: int| 0 <= j <= i ==> all_ascii(#[trigger] fields[j]),
    ensures
        fields.contains(entity_field_of(fields)),
        seq![
            "name"@,
            "nombre"@,
            "nom"@,
            "title"@,
            "organisation"@,
            "organization"@,
            "entity"@,
            "company"@,
            "municipality"@,
            "municipio"@,
            "ayuntamiento"@,
        ].contains(lower_all(fields[i])) && (forall|j: int|
            0 <= j < i ==> !seq![
                "name"@,
                "nombre"@,
                "nom"@,
                "title"@,
                "organisation"@,
                "organization"@,
                "entity"@,
                "company"@,
                "municipality"@,
                "municipio"@,
                "ayuntamiento"@,
            ].contains(lower_all(#[trigger] fields[j]))) ==> entity_field_of(fields) == fields[i],
{
    let all = seq![
        "name"@,
        "nombre"@,
        "nom"@,
        "title"@,
        "organisation"@,
        "organization"@,
        "entity"@,
        "company"@,
        "municipality"@,
        "municipio"@,
        "ayuntamiento"@,
    ];
    assert forall|s: Seq<char>| #[trigger] all.contains(s) <==> names_an_entity(s) by {
        assert(all[0] == "name"@ && all[1] == "nombre"@ && all[2] == "nom"@ && all[3] == "title"@
            && all[4] == "organisation"@ && all[5] == "organization"@ && all[6] == "entity"@
            && all[7] == "company"@ && all[8] == "municipality"@ && all[9] == "municipio"@
            && all[10] == "ayuntamiento"@);
    }
    assert forall|j: int| 0 <= j <= i implies lowercase(#[trigger] fields[j]) == lower_all(
        fields[j],
    ) by {}
    lemma_first_identity(fields, 0, i);
    assert(fields.contains(fields[0]));
}

proof fn lemma_first_identity(fields: Seq<Seq<char>>, a: int, i: int)
    requires
        0 <= a <= i < fields.len(),
    ensures
        names_an_entity(lowercase(fields[i])) && (forall|j: int|
            a <= j < i ==> !names_an_entity(lowercase(#[trigger] fields[j]))) ==> first_identity(
            fields,
            a,
        ) == Some(i),
        first_identity(fields, a) matches Some(k) ==> a <= k < fields.len(),
    decreases fields.len() - a,
{
    if !names_an_entity(lowercase(fields[a])) {
        if a < i {
            lemma_first_identity(fields, a + 1, i);
        } else if a + 1 < fields.len() {
            lemma_first_identity(fields, a + 1, a + 1);
        }
    }
}

} // verus!
