//! Verifies which components have a component resolver with access to a protocol.

use crate::text::{join, joined, starts_with};
use vstd::prelude::*;
use vstd::string::StrSliceExecFns;

verus! {

/// The path of a component in the component tree.
pub type NodePath = String;

/// Where the package repository is, relative to the build directory.
pub const REPOSITORY_PATH: &'static str = "amber-files/repository";

/// A question: which components have a resolver for `scheme` that has the given moniker and access
/// to `protocol`?
#[derive(Debug, PartialEq, Eq, PartialOrd, Ord)]
pub struct ComponentResolversRequest {
    pub scheme: String,
    pub moniker: NodePath,
    pub protocol: String,
}

/// The answer.
#[derive(Debug, Eq, Clone)]
pub struct ComponentResolversResponse {
    /// The files that the answer depends on, in any order; a file may be there more than once.
    pub deps: Vec<String>,
    /// The components.
    pub monikers: Vec<NodePath>,
}

/// The components that may come up in the answer to a question.
#[derive(Debug, PartialEq, Eq, PartialOrd, Ord)]
pub struct AllowListEntry {
    pub query: ComponentResolversRequest,
    pub components: Vec<NodePath>,
}

/// A list of questions with the components that may come up.
#[derive(Debug, PartialEq, Eq, PartialOrd, Ord)]
pub struct AllowList(pub Vec<AllowListEntry>);

/// Why a question was not answered.
#[derive(Debug, PartialEq, Eq)]
pub struct QueryError {
    pub message: String,
}

/// A question that was not answered, and why.
#[derive(Debug, PartialEq, Eq)]
pub struct VerifyError {
    pub query: ComponentResolversRequest,
    pub cause: QueryError,
}

/// A way to ask such questions.
pub trait QueryComponentResolvers {
    /// Finds all components with a component resolver for `scheme` in their environment that has
    /// the given `moniker` and access to `protocol`.
    fn query(&self, scheme: String, moniker: NodePath, protocol: String) -> Result<
        ComponentResolversResponse,
        QueryError,
    >;
}

// -- The model --

/// The characters of each string.
pub open spec fn texts(strings: Seq<String>) -> Seq<Seq<char>> {
    Seq::new(strings.len(), |i: int| strings[i]@)
}

/// A question.
#[verifier::ext_equal]
pub struct RequestView {
    pub scheme: Seq<char>,
    pub moniker: Seq<char>,
    pub protocol: Seq<char>,
}

/// A question with a list of components.
#[verifier::ext_equal]
pub struct EntryView {
    pub query: RequestView,
    pub components: Seq<Seq<char>>,
}

/// The answer to a question.
#[verifier::ext_equal]
pub struct ResponseView {
    pub deps: Set<Seq<char>>,
    pub monikers: Seq<Seq<char>>,
}

impl ComponentResolversRequest {
    pub open spec fn view(&self) -> RequestView {
        RequestView {
            scheme: self.scheme@,
            moniker: self.moniker@,
            protocol: self.protocol@,
        }
    }
}

impl Clone for ComponentResolversRequest {
    fn clone(&self) -> (result: Self)
        ensures
            result@ == self@,
    {
        ComponentResolversRequest {
            scheme: self.scheme.clone(),
            moniker: self.moniker.clone(),
            protocol: self.protocol.clone(),
        }
    }
}

impl ComponentResolversResponse {
    pub open spec fn view(&self) -> ResponseView {
        ResponseView { deps: texts(self.deps@).to_set(), monikers: texts(self.monikers@) }
    }
}

/// Is each text of one list in the other?
fn has_texts(strings: &Vec<String>, others: &Vec<String>) -> (result: bool)
    ensures
        result == texts(others@).to_set().subset_of(texts(strings@).to_set()),
{
    for i in 0..others.len()
        invariant
            forall|j: int| 0 <= j < i ==> texts(strings@).contains(#[trigger] texts(others@)[j]),
    {
        if !is_among(strings, &others[i]) {
            assert(texts(others@)[i as int] == others@[i as int]@);
            assert(texts(others@).to_set().contains(texts(others@)[i as int]));
            return false;
        }
        assert(texts(others@)[i as int] == others@[i as int]@);
    }
    true
}

/// Are the lists the same?
fn same_texts(a: &Vec<String>, b: &Vec<String>) -> (result: bool)
    ensures
        result == (texts(a@) == texts(b@)),
{
    if a.len() != b.len() {
        assert(texts(a@).len() != texts(b@).len());
        return false;
    }
    for i in 0..a.len()
        invariant
            a@.len() == b@.len(),
            forall|j: int| 0 <= j < i ==> (#[trigger] a@[j])@ == b@[j]@,
    {
        if a[i] != b[i] {
            assert(texts(a@)[i as int] != texts(b@)[i as int]);
            return false;
        }
    }
    assert(texts(a@) =~= texts(b@));
    true
}

/// Answers are the same when they name the same components in the same order and depend on the
/// same files.
impl PartialEq for ComponentResolversResponse {
    fn eq(&self, other: &Self) -> (result: bool) {
        let result = same_texts(&self.monikers, &other.monikers) && has_texts(
            &self.deps,
            &other.deps,
        ) && has_texts(&other.deps, &self.deps);
        assert(result == (self@ =~= other@));
        result
    }
}

impl vstd::std_specs::cmp::PartialEqSpecImpl for ComponentResolversResponse {
    open spec fn obeys_eq_spec() -> bool {
        true
    }

    open spec fn eq_spec(&self, other: &Self) -> bool {
        self@ == other@
    }
}

impl AllowListEntry {
    pub open spec fn view(&self) -> EntryView {
        EntryView { query: self.query@, components: texts(self.components@) }
    }
}

impl AllowList {
    pub open spec fn view(&self) -> Seq<EntryView> {
        Seq::new(self.0@.len(), |i: int| self.0@[i]@)
    }

    /// The questions, each with the components that may come up.
    pub fn iter(&self) -> (result: Vec<(ComponentResolversRequest, &Vec<NodePath>)>)
        ensures
            result@.len() == self@.len(),
            forall|i: int|
                0 <= i < result@.len() ==> (#[trigger] result@[i]).0@ == self@[i].query && texts(
                    result@[i].1@,
                ) == self@[i].components,
    {
        let mut result: Vec<(ComponentResolversRequest, &Vec<NodePath>)> = Vec::new();
        for i in 0..self.0.len()
            invariant
                result@.len() == i,
                forall|j: int|
                    0 <= j < i ==> (#[trigger] result@[j]).0@ == self@[j].query && texts(
                        result@[j].1@,
                    ) == self@[j].components,
        {
            let entry = &self.0[i];
            result.push((entry.query.clone(), &entry.components));
        }
        result
    }
}

/// The components of an answer that may not come up, in order.
pub open spec fn unexpected(monikers: Seq<Seq<char>>, allowed: Seq<Seq<char>>) -> Seq<Seq<char>>
    decreases monikers.len(),
{
    if monikers.len() == 0 {
        Seq::empty()
    } else {
        let rest = unexpected(monikers.drop_last(), allowed);
        if allowed.contains(monikers.last()) {
            rest
        } else {
            rest.push(monikers.last())
        }
    }
}

/// The questions to whose answers came components that may not, with those components.
pub open spec fn violations(allowlist: Seq<EntryView>, responses: Seq<ResponseView>) -> Seq<
    EntryView,
>
    decreases responses.len(),
{
    if responses.len() == 0 {
        Seq::empty()
    } else {
        let n = responses.len() - 1;
        let rest = violations(allowlist, responses.drop_last());
        let found = unexpected(responses[n].monikers, allowlist[n].components);
        if found.len() == 0 {
            rest
        } else {
            rest.push(EntryView { query: allowlist[n].query, components: found })
        }
    }
}

/// The files that the answers depend on.
pub open spec fn all_deps(responses: Seq<ResponseView>) -> Set<Seq<char>>
    decreases responses.len(),
{
    if responses.len() == 0 {
        Set::empty()
    } else {
        all_deps(responses.drop_last()).union(responses.last().deps)
    }
}

// -- Build dependencies --

/// Strings are ordered by their first difference, a prefix before what it is a prefix of.
pub open spec fn text_before(a: Seq<char>, b: Seq<char>) -> bool
    decreases a.len(),
{
    if b.len() == 0 {
        false
    } else if a.len() == 0 {
        true
    } else if a[0] != b[0] {
        a[0] < b[0]
    } else {
        text_before(a.drop_first(), b.drop_first())
    }
}

/// Compares two strings by the code points of their characters.
fn str_before(a: &str, b: &str) -> (result: bool)
    ensures
        result == text_before(a@, b@),
{
    let n: usize = a.unicode_len();
    let m: usize = b.unicode_len();
    let mut i: usize = 0;
    assert(a@.skip(0) =~= a@ && b@.skip(0) =~= b@);
    while i < n && i < m
        invariant
            n == a@.len(),
            m == b@.len(),
            i <= n,
            i <= m,
            text_before(a@, b@) == text_before(a@.skip(i as int), b@.skip(i as int)),
        decreases n - i,
    {
        let x = a.get_char(i);
        let y = b.get_char(i);
        if x != y {
            return x < y;
        }
        assert(a@.skip(i as int).drop_first() =~= a@.skip(i + 1));
        assert(b@.skip(i as int).drop_first() =~= b@.skip(i + 1));
        i = i + 1;
    }
    i < m
}

/// The strings are in order, and none is there twice.
pub open spec fn in_order(strings: Seq<Seq<char>>) -> bool {
    forall|i: int, j: int|
        #![trigger strings[i], strings[j]]
        0 <= i < j < strings.len() ==> text_before(strings[i], strings[j])
}

/// A collection of build dependencies.
#[derive(Debug, PartialEq, Eq)]
pub struct Deps {
    /// In order.
    deps: Vec<String>,
}

proof fn lemma_text_irreflexive(a: Seq<char>)
    ensures
        !text_before(a, a),
    decreases a.len(),
{
    if a.len() > 0 {
        lemma_text_irreflexive(a.drop_first());
    }
}

proof fn lemma_text_transitive(a: Seq<char>, b: Seq<char>, c: Seq<char>)
    requires
        text_before(a, b),
        text_before(b, c),
    ensures
        text_before(a, c),
    decreases a.len(),
{
    if a.len() > 0 && b.len() > 0 && c.len() > 0 && a[0] == b[0] && b[0] == c[0] {
        lemma_text_transitive(a.drop_first(), b.drop_first(), c.drop_first());
    }
}

proof fn lemma_text_total(a: Seq<char>, b: Seq<char>)
    ensures
        a == b || text_before(a, b) || text_before(b, a),
    decreases a.len(),
{
    if a.len() == 0 || b.len() == 0 {
        if a.len() == b.len() {
            assert(a =~= b);
        }
    } else if a[0] == b[0] {
        lemma_text_total(a.drop_first(), b.drop_first());
        if a.drop_first() == b.drop_first() {
            assert(a =~= seq![a[0]] + a.drop_first());
            assert(b =~= seq![b[0]] + b.drop_first());
        }
    }
}

impl Deps {
    /// The dependencies.
    pub closed spec fn view(&self) -> Set<Seq<char>> {
        texts(self.deps@).to_set()
    }

    #[verifier::type_invariant]
    spec fn wf(self) -> bool {
        in_order(texts(self.deps@))
    }

    /// Adds a dependency, if it is not there yet.
    pub fn insert(&mut self, dep: String)
        ensures
            final(self)@ == old(self)@.insert(dep@),
    {
        proof {
            use_type_invariant(&*self);
        }
        let mut deps: Vec<String> = Vec::new();
        std::mem::swap(&mut deps, &mut self.deps);
        let ghost before = texts(deps@);
        let mut i: usize = 0;
        while i < deps.len() && str_before(deps[i].as_str(), dep.as_str())
            invariant
                i <= deps@.len(),
                before == texts(deps@),
                forall|j: int| 0 <= j < i ==> text_before(#[trigger] before[j], dep@),
            decreases deps@.len() - i,
        {
            i = i + 1;
        }
        if i < deps.len() && deps[i] == dep {
            proof {
                assert(before[i as int] == dep@);
                assert(before.to_set().insert(dep@) =~= before.to_set());
            }
            self.deps = deps;
        } else {
            proof {
                let after = before.insert(i as int, dep@);
                if i < before.len() {
                    lemma_text_total(before[i as int], dep@);
                }
                assert forall|j: int, k: int|
                    #![trigger after[j], after[k]]
                    0 <= j < k < after.len() implies text_before(after[j], after[k]) by {
                    if j == i {
                        assert(after[k] == before[k - 1]);
                        if k - 1 > i {
                            assert(text_before(before[i as int], before[k - 1]));
                            lemma_text_transitive(dep@, before[i as int], before[k - 1]);
                        }
                    } else if k == i {
                        assert(after[j] == before[j]);
                    } else {
                        let j0 = if j < i {
                            j
                        } else {
                            j - 1
                        };
                        let k0 = if k < i {
                            k
                        } else {
                            k - 1
                        };
                        assert(after[j] == before[j0] && after[k] == before[k0]);
                    }
                }
                assert forall|s: Seq<char>| #[trigger] after.contains(s) <==> before.contains(s)
                    || s == dep@ by {
                    assert(after[i as int] == dep@);
                    if before.contains(s) {
                        let j = choose|j: int| 0 <= j < before.len() && before[j] == s;
                        if j < i {
                            assert(after[j] == s);
                        } else {
                            assert(after[j + 1] == s);
                        }
                    }
                    if after.contains(s) && s != dep@ {
                        let j = choose|j: int| 0 <= j < after.len() && after[j] == s;
                        if j < i {
                            assert(before[j] == s);
                        } else {
                            assert(before[j - 1] == s);
                        }
                    }
                }
                assert(after.to_set() =~= before.to_set().insert(dep@));
            }
            deps.insert(i, dep);
            assert(texts(deps@) =~= before.insert(i as int, dep@));
            self.deps = deps;
        }
    }

    /// The dependencies, in order.
    pub fn get(&self) -> (result: Vec<String>)
        ensures
            in_order(texts(result@)),
            texts(result@).to_set() == self@,
    {
        proof {
            use_type_invariant(self);
        }
        let result = copy_strings(&self.deps);
        result
    }
}

impl Default for Deps {
    fn default() -> (result: Self)
        ensures
            result@ == Set::<Seq<char>>::empty(),
    {
        let result = Deps { deps: Vec::new() };
        assert(result@ =~= Set::empty());
        result
    }
}

/// A list of strings in order is known by which strings are in it.
pub proof fn order_is_unique(a: Seq<Seq<char>>, b: Seq<Seq<char>>)
    requires
        in_order(a),
        in_order(b),
        a.to_set() == b.to_set(),
    ensures
        a == b,
    decreases a.len(),
{
    assert(forall|s: Seq<char>| a.to_set().contains(s) == b.to_set().contains(s));
    if a.len() == 0 {
        if b.len() > 0 {
            assert(b.to_set().contains(b[0]));
        }
    } else {
        let n = a.len() - 1;
        assert(a.to_set().contains(a[n]));
        assert(b.contains(a[n]));
        let k = choose|k: int| 0 <= k < b.len() && b[k] == a[n];
        let m = b.len() - 1;
        assert(b.to_set().contains(b[m]));
        assert(a.contains(b[m]));
        let j = choose|j: int| 0 <= j < a.len() && a[j] == b[m];
        if k < m {
            assert(text_before(b[k], b[m]));
            if j < n {
                assert(text_before(a[j], a[n]));
                lemma_text_transitive(a[j], a[n], a[j]);
            }
            lemma_text_irreflexive(a[j]);
        }
        let a0 = a.drop_last();
        let b0 = b.drop_last();
        assert forall|s: Seq<char>| a0.to_set().contains(s) == b0.to_set().contains(s) by {
            if a0.contains(s) {
                let i = choose|i: int| 0 <= i < a0.len() && a0[i] == s;
                assert(a[i] == s);
                assert(a.to_set().contains(s));
                let l = choose|l: int| 0 <= l < b.len() && b[l] == s;
                if l == m {
                    assert(text_before(a[i], a[n]));
                    lemma_text_irreflexive(a[n]);
                }
                assert(b0[l] == s);
            }
            if b0.contains(s) {
                let i = choose|i: int| 0 <= i < b0.len() && b0[i] == s;
                assert(b[i] == s);
                assert(b.to_set().contains(s));
                let l = choose|l: int| 0 <= l < a.len() && a[l] == s;
                if l == n {
                    assert(text_before(b[i], b[m]));
                    lemma_text_irreflexive(b[m]);
                }
                assert(a0[l] == s);
            }
        }
        assert(a0.to_set() =~= b0.to_set());
        order_is_unique(a0, b0);
        assert(a =~= a0.push(a[n]));
        assert(b =~= b0.push(b[m]));
    }
}

/// Copies strings.
fn copy_strings(strings: &Vec<String>) -> (result: Vec<String>)
    ensures
        texts(result@) == texts(strings@),
{
    let mut result: Vec<String> = Vec::new();
    for i in 0..strings.len()
        invariant
            result@.len() == i,
            forall|j: int| 0 <= j < i ==> (#[trigger] result@[j])@ == strings@[j]@,
    {
        result.push(strings[i].clone());
    }
    assert(texts(result@) =~= texts(strings@));
    result
}

// -- Verification --

/// Is the string among those?
fn is_among(strings: &Vec<String>, s: &String) -> (result: bool)
    ensures
        result == texts(strings@).contains(s@),
{
    let mut i: usize = 0;
    while i < strings.len()
        invariant
            i <= strings@.len(),
            forall|j: int| 0 <= j < i ==> (#[trigger] strings@[j])@ != s@,
        decreases strings@.len() - i,
    {
        if strings[i] == *s {
            assert(texts(strings@)[i as int] == s@);
            return true;
        }
        i = i + 1;
    }
    proof {
        if texts(strings@).contains(s@) {
            let j = choose|j: int| 0 <= j < strings@.len() && texts(strings@)[j] == s@;
            assert(strings@[j]@ == s@);
        }
    }
    false
}

/// The components of an answer that may not come up.
pub fn unexpected_monikers(monikers: &Vec<NodePath>, allowed: &Vec<NodePath>) -> (result: Vec<
    NodePath,
>)
    ensures
        texts(result@) == unexpected(texts(monikers@), texts(allowed@)),
{
    let mut result: Vec<NodePath> = Vec::new();
    let ghost all = texts(monikers@);
    assert(all.take(0) =~= Seq::empty());
    assert(texts(result@) =~= Seq::empty());
    for i in 0..monikers.len()
        invariant
            all == texts(monikers@),
            texts(result@) == unexpected(all.take(i as int), texts(allowed@)),
    {
        proof {
            let next = all.take(i + 1);
            assert(next.drop_last() =~= all.take(i as int));
            assert(next.last() == monikers@[i as int]@);
        }
        if !is_among(allowed, &monikers[i]) {
            let ghost before = texts(result@);
            result.push(monikers[i].clone());
            assert(texts(result@) =~= before.push(monikers@[i as int]@));
        }
    }
    assert(all.take(all.len() as int) =~= all);
    result
}

/// The verdict on the answers to all questions: the files that they depend on if nothing came up
/// that may not, and otherwise what came up.
pub open spec fn is_verdict(
    verdict: Result<Deps, AllowList>,
    allowlist: Seq<EntryView>,
    responses: Seq<ResponseView>,
) -> bool {
    match verdict {
        Ok(deps) => violations(allowlist, responses).len() == 0 && deps@ == all_deps(responses),
        Err(list) => violations(allowlist, responses).len() > 0 && list@ == violations(
            allowlist,
            responses,
        ),
    }
}

/// The answers.
pub open spec fn response_views(responses: Seq<ComponentResolversResponse>) -> Seq<ResponseView> {
    Seq::new(responses.len(), |i: int| responses[i]@)
}

/// Takes in the answer to a question.
fn take_response(
    query: ComponentResolversRequest,
    allowed: &Vec<NodePath>,
    response: &ComponentResolversResponse,
    found: &mut Vec<AllowListEntry>,
    deps: &mut Deps,
)
    ensures
        final(deps)@ == old(deps)@.union(response@.deps),
        ({
            let components = unexpected(response@.monikers, texts(allowed@));
            AllowList(*final(found))@ == if components.len() == 0 {
                AllowList(*old(found))@
            } else {
                AllowList(*old(found))@.push(EntryView { query: query@, components })
            }
        }),
{
    let ghost deps0 = deps@;
    let ghost names = texts(response.deps@);
    proof {
        assert(names.take(0).to_set() =~= Set::empty());
        assert(deps0.union(Set::empty()) =~= deps0);
    }
    for i in 0..response.deps.len()
        invariant
            names == texts(response.deps@),
            deps@ == deps0.union(names.take(i as int).to_set()),
    {
        deps.insert(response.deps[i].clone());
        proof {
            let a = names.take(i as int);
            let b = names.take(i + 1);
            assert(b =~= a.push(names[i as int]));
            assert forall|s: Seq<char>| #[trigger] b.contains(s) <==> a.contains(s) || s
                == names[i as int] by {
                assert(b[i as int] == names[i as int]);
                if a.contains(s) {
                    let j = choose|j: int| 0 <= j < a.len() && a[j] == s;
                    assert(b[j] == s);
                }
                if b.contains(s) && s != names[i as int] {
                    let j = choose|j: int| 0 <= j < b.len() && b[j] == s;
                    assert(a[j] == s);
                }
            }
            assert(deps0.union(b.to_set()) =~= deps0.union(a.to_set()).insert(names[i as int]));
        }
    }
    assert(names.take(names.len() as int) =~= names);
    let components = unexpected_monikers(&response.monikers, allowed);
    if components.len() > 0 {
        let ghost before = AllowList(*found)@;
        let entry = AllowListEntry { query, components };
        let ghost made = entry@;
        found.push(entry);
        assert(AllowList(*found)@ =~= before.push(made));
    }
}

/// Judges the answers to all questions.
pub fn check_responses(
    allowlist: &AllowList,
    responses: &Vec<ComponentResolversResponse>,
) -> (result: Result<Deps, AllowList>)
    requires
        responses@.len() == allowlist@.len(),
    ensures
        is_verdict(result, allowlist@, response_views(responses@)),
{
    let mut found: Vec<AllowListEntry> = Vec::new();
    let mut deps = Deps::default();
    let entries = allowlist.iter();
    let ghost views = response_views(responses@);
    proof {
        assert(views.take(0) =~= Seq::empty());
        assert(AllowList(found)@ =~= Seq::empty());
    }
    for i in 0..entries.len()
        invariant
            views == response_views(responses@),
            responses@.len() == allowlist@.len() == entries@.len(),
            forall|j: int|
                0 <= j < entries@.len() ==> (#[trigger] entries@[j]).0@ == allowlist@[j].query
                    && texts(entries@[j].1@) == allowlist@[j].components,
            deps@ == all_deps(views.take(i as int)),
            AllowList(found)@ == violations(allowlist@, views.take(i as int)),
    {
        proof {
            let next = views.take(i + 1);
            assert(next.drop_last() =~= views.take(i as int));
            assert(next.last() == responses@[i as int]@);
        }
        take_response(
            entries[i].0.clone(),
            entries[i].1,
            &responses[i],
            &mut found,
            &mut deps,
        );
    }
    assert(views.take(views.len() as int) =~= views);
    if found.len() == 0 {
        Ok(deps)
    } else {
        Err(AllowList(found))
    }
}

/// The service may have given that answer to a question.
pub open spec fn may_answer<Q: QueryComponentResolvers>(
    scrutiny: Q,
    query: RequestView,
    answer: Result<ComponentResolversResponse, QueryError>,
) -> bool {
    exists|scheme: String, moniker: NodePath, protocol: String|
        {
            &&& #[trigger] call_ensures(Q::query, (&scrutiny, scheme, moniker, protocol), answer)
            &&& scheme@ == query.scheme
            &&& moniker@ == query.moniker
            &&& protocol@ == query.protocol
        }
}

/// The service may have given those answers to the first questions.
pub open spec fn may_respond<Q: QueryComponentResolvers>(
    scrutiny: Q,
    allowlist: Seq<EntryView>,
    responses: Seq<ComponentResolversResponse>,
) -> bool {
    forall|i: int|
        0 <= i < responses.len() ==> may_answer(
            scrutiny,
            allowlist[i].query,
            Ok(#[trigger] responses[i]),
        )
}

/// For each entry of the list, asks for all components that have a component resolver for the scheme
/// with the given moniker that itself has access to the protocol. If any components come up that are
/// not in the list, returns a list that would allow them. Otherwise returns the files that the
/// answers depend on. Fails at the first question that is not answered.
pub fn verify_component_resolvers<Q: QueryComponentResolvers>(
    scrutiny: Q,
    allowlist: AllowList,
) -> (result: Result<Result<Deps, AllowList>, VerifyError>)
    ensures
        match result {
            Ok(verdict) => exists|responses: Seq<ComponentResolversResponse>|
                {
                    &&& responses.len() == allowlist@.len()
                    &&& #[trigger] may_respond(scrutiny, allowlist@, responses)
                    &&& is_verdict(verdict, allowlist@, response_views(responses))
                },
            Err(error) => exists|responses: Seq<ComponentResolversResponse>|
                {
                    &&& responses.len() < allowlist@.len()
                    &&& #[trigger] may_respond(scrutiny, allowlist@, responses)
                    &&& error.query@ == allowlist@[responses.len() as int].query
                    &&& may_answer(scrutiny, error.query@, Err(error.cause))
                },
        },
{
    let mut responses: Vec<ComponentResolversResponse> = Vec::new();
    let mut i: usize = 0;
    while i < allowlist.0.len()
        invariant
            i <= allowlist@.len(),
            responses@.len() == i,
            may_respond(scrutiny, allowlist@, responses@),
        decreases allowlist@.len() - i,
    {
        let query = &allowlist.0[i].query;
        let scheme = query.scheme.clone();
        let moniker = query.moniker.clone();
        let protocol = query.protocol.clone();
        let ghost asked = (scheme, moniker, protocol);
        let answer = scrutiny.query(scheme, moniker, protocol);
        assert(call_ensures(Q::query, (&scrutiny, asked.0, asked.1, asked.2), answer));
        assert(may_answer(scrutiny, allowlist@[i as int].query, answer));
        match answer {
            Ok(response) => {
                let ghost before = responses@;
                responses.push(response);
                assert forall|j: int| 0 <= j < responses@.len() implies may_answer(
                    scrutiny,
                    allowlist@[j].query,
                    Ok(#[trigger] responses@[j]),
                ) by {
                    if j < i {
                        assert(responses@[j] == before[j]);
                    }
                }
            },
            Err(cause) => {
                return Err(VerifyError { query: query.clone(), cause });
            },
        }
        i = i + 1;
    }
    Ok(check_responses(&allowlist, &responses))
}

// -- Laws --

/// What comes up unexpectedly is what came up and is not allowed.
pub proof fn unexpected_is_what_is_not_allowed(
    monikers: Seq<Seq<char>>,
    allowed: Seq<Seq<char>>,
    moniker: Seq<char>,
)
    ensures
        unexpected(monikers, allowed).contains(moniker) <==> monikers.contains(moniker)
            && !allowed.contains(moniker),
    decreases monikers.len(),
{
    if monikers.len() > 0 {
        let front = monikers.drop_last();
        let rest = unexpected(front, allowed);
        let last = monikers.last();
        unexpected_is_what_is_not_allowed(front, allowed, moniker);
        assert(monikers =~= front.push(last));
        if front.contains(moniker) {
            let i = choose|i: int| 0 <= i < front.len() && front[i] == moniker;
            assert(monikers[i] == moniker);
        }
        if monikers.contains(moniker) && moniker != last {
            let i = choose|i: int| 0 <= i < monikers.len() && monikers[i] == moniker;
            assert(front[i] == moniker);
        }
        assert(monikers[monikers.len() - 1] == last);
        let grown = rest.push(last);
        assert(grown[rest.len() as int] == last);
        if rest.contains(moniker) {
            let i = choose|i: int| 0 <= i < rest.len() && rest[i] == moniker;
            assert(grown[i] == moniker);
        }
        if grown.contains(moniker) && moniker != last {
            let i = choose|i: int| 0 <= i < grown.len() && grown[i] == moniker;
            assert(rest[i] == moniker);
        }
    }
}

/// There is no violation just when everything that came up is allowed.
pub proof fn no_violation_means_all_allowed(
    allowlist: Seq<EntryView>,
    responses: Seq<ResponseView>,
)
    requires
        responses.len() <= allowlist.len(),
    ensures
        violations(allowlist, responses).len() == 0 <==> forall|i: int, m: Seq<char>|
            0 <= i < responses.len() && #[trigger] responses[i].monikers.contains(m)
                ==> allowlist[i].components.contains(m),
    decreases responses.len(),
{
    if responses.len() > 0 {
        let n = responses.len() - 1;
        let front = responses.drop_last();
        no_violation_means_all_allowed(allowlist, front);
        let last = responses[n];
        let found = unexpected(last.monikers, allowlist[n].components);
        if violations(allowlist, responses).len() == 0 {
            assert forall|i: int, m: Seq<char>|
                0 <= i < responses.len() && #[trigger] responses[i].monikers.contains(
                    m,
                ) implies allowlist[i].components.contains(m) by {
                if i == n {
                    unexpected_is_what_is_not_allowed(last.monikers, allowlist[n].components, m);
                } else {
                    assert(front[i].monikers.contains(m));
                }
            }
        } else if forall|i: int, m: Seq<char>|
            0 <= i < responses.len() && #[trigger] responses[i].monikers.contains(m)
                ==> allowlist[i].components.contains(m) {
            assert forall|i: int, m: Seq<char>|
                0 <= i < front.len() && #[trigger] front[i].monikers.contains(
                    m,
                ) implies allowlist[i].components.contains(m) by {
                assert(responses[i].monikers.contains(m));
            }
            if found.len() > 0 {
                let m = found[0];
                assert(found.contains(m));
                unexpected_is_what_is_not_allowed(last.monikers, allowlist[n].components, m);
                assert(responses[n].monikers.contains(m));
            }
        }
    }
}

/// A list of violations allows everything that came up and was not allowed: for each such component
/// it has an entry with the same question that names it.
pub proof fn violations_allow_what_came_up(
    allowlist: Seq<EntryView>,
    responses: Seq<ResponseView>,
    i: int,
    moniker: Seq<char>,
)
    requires
        responses.len() <= allowlist.len(),
        0 <= i < responses.len(),
        responses[i].monikers.contains(moniker),
        !allowlist[i].components.contains(moniker),
    ensures
        exists|k: int|
            {
                &&& 0 <= k < violations(allowlist, responses).len()
                &&& (#[trigger] violations(allowlist, responses)[k]).query == allowlist[i].query
                &&& violations(allowlist, responses)[k].components.contains(moniker)
            },
    decreases responses.len(),
{
    let n = responses.len() - 1;
    let front = responses.drop_last();
    let rest = violations(allowlist, front);
    let all = violations(allowlist, responses);
    let found = unexpected(responses[n].monikers, allowlist[n].components);
    if i == n {
        unexpected_is_what_is_not_allowed(responses[n].monikers, allowlist[n].components, moniker);
        assert(found.len() > 0);
        assert(all[rest.len() as int].query == allowlist[i].query);
    } else {
        assert(front[i] == responses[i]);
        violations_allow_what_came_up(allowlist, front, i, moniker);
        let k = choose|k: int|
            {
                &&& 0 <= k < rest.len()
                &&& (#[trigger] rest[k]).query == allowlist[i].query
                &&& rest[k].components.contains(moniker)
            };
        assert(all[k] == rest[k]);
    }
}

/// Every entry of a list of violations comes from a question of the list, and names a component.
pub proof fn violations_are_found(
    allowlist: Seq<EntryView>,
    responses: Seq<ResponseView>,
    k: int,
)
    requires
        responses.len() <= allowlist.len(),
        0 <= k < violations(allowlist, responses).len(),
    ensures
        exists|i: int|
            {
                &&& 0 <= i < responses.len()
                &&& violations(allowlist, responses)[k].query == (#[trigger] allowlist[i]).query
                &&& violations(allowlist, responses)[k].components == unexpected(
                    responses[i].monikers,
                    allowlist[i].components,
                )
            },
        violations(allowlist, responses)[k].components.len() > 0,
    decreases responses.len(),
{
    if responses.len() > 0 {
        let n = responses.len() - 1;
        let front = responses.drop_last();
        let rest = violations(allowlist, front);
        let all = violations(allowlist, responses);
        if k < rest.len() {
            violations_are_found(allowlist, front, k);
            assert(all[k] == rest[k]);
            let i = choose|i: int|
                {
                    &&& 0 <= i < front.len()
                    &&& rest[k].query == (#[trigger] allowlist[i]).query
                    &&& rest[k].components == unexpected(
                        front[i].monikers,
                        allowlist[i].components,
                    )
                };
            assert(responses[i] == front[i]);
            assert(all[k].query == allowlist[i].query);
        } else {
            assert(all[k].query == allowlist[n].query);
        }
    }
}

/// Every answer that is taken into account was given to its own question: to the scheme, the moniker
/// and the protocol of the entry in the same place.
pub proof fn answers_belong_to_questions<Q: QueryComponentResolvers>(
    scrutiny: Q,
    allowlist: Seq<EntryView>,
    responses: Seq<ComponentResolversResponse>,
    i: int,
)
    requires
        may_respond(scrutiny, allowlist, responses),
        0 <= i < responses.len(),
    ensures
        exists|scheme: String, moniker: NodePath, protocol: String|
            {
                &&& #[trigger] call_ensures(
                    Q::query,
                    (&scrutiny, scheme, moniker, protocol),
                    Ok::<ComponentResolversResponse, QueryError>(responses[i]),
                )
                &&& scheme@ == allowlist[i].query.scheme
                &&& moniker@ == allowlist[i].query.moniker
                &&& protocol@ == allowlist[i].query.protocol
            },
{
    assert(may_answer(scrutiny, allowlist[i].query, Ok(responses[i])));
}

/// An error that is passed on was given to the question that it names.
pub proof fn errors_belong_to_questions<Q: QueryComponentResolvers>(
    scrutiny: Q,
    query: RequestView,
    cause: QueryError,
)
    requires
        may_answer(scrutiny, query, Err(cause)),
    ensures
        exists|scheme: String, moniker: NodePath, protocol: String|
            {
                &&& #[trigger] call_ensures(
                    Q::query,
                    (&scrutiny, scheme, moniker, protocol),
                    Err::<ComponentResolversResponse, QueryError>(cause),
                )
                &&& scheme@ == query.scheme
                &&& moniker@ == query.moniker
                &&& protocol@ == query.protocol
            },
{
}

/// The package repository is in its place under the build directory.
pub proof fn repository_is_in_its_place(build_dir: Seq<char>)
    requires
        build_dir.len() > 0,
        build_dir.last() != '/',
    ensures
        joined(build_dir, REPOSITORY_PATH@) == build_dir + "/amber-files/repository"@,
{
    reveal_strlit("amber-files/repository");
    reveal_strlit("/amber-files/repository");
    assert("/amber-files/repository"@ =~= seq!['/'] + "amber-files/repository"@);
    assert(joined(build_dir, REPOSITORY_PATH@) =~= build_dir + "/amber-files/repository"@);
}

/// The view of a list of answers, of an allowlist or of parameters holds the view of each, in its
/// place.
pub proof fn views_hold_each(
    responses: Seq<ComponentResolversResponse>,
    list: AllowList,
    params: Seq<(String, String)>,
    i: int,
)
    ensures
        response_views(responses).len() == responses.len(),
        0 <= i < responses.len() ==> response_views(responses)[i] == responses[i]@,
        list@.len() == list.0@.len(),
        0 <= i < list.0@.len() ==> list@[i] == list.0@[i]@,
        pairs(params).len() == params.len(),
        0 <= i < params.len() ==> pairs(params)[i].0 == params[i].0@ && pairs(params)[i].1
            == params[i].1@,
{
}

/// A file is among the collected dependencies just when some answer depends on it.
pub proof fn dependencies_are_collected(responses: Seq<ResponseView>, file: Seq<char>)
    ensures
        all_deps(responses).contains(file) <==> exists|i: int|
            0 <= i < responses.len() && (#[trigger] responses[i]).deps.contains(file),
    decreases responses.len(),
{
    if responses.len() > 0 {
        let front = responses.drop_last();
        let n = responses.len() - 1;
        dependencies_are_collected(front, file);
        if all_deps(front).contains(file) {
            let i = choose|i: int|
                0 <= i < front.len() && (#[trigger] front[i]).deps.contains(file);
            assert(responses[i].deps.contains(file));
        }
        if exists|i: int|
            0 <= i < responses.len() && (#[trigger] responses[i]).deps.contains(file) {
            let i = choose|i: int|
                0 <= i < responses.len() && (#[trigger] responses[i]).deps.contains(file);
            if i < n {
                assert(front[i].deps.contains(file));
            }
        }
    }
}

/// What comes up unexpectedly keeps its order, and comes up as often as it did.
pub proof fn unexpected_keeps_order(monikers: Seq<Seq<char>>, allowed: Seq<Seq<char>>)
    ensures
        unexpected(monikers, allowed) == monikers.filter(|m: Seq<char>| !allowed.contains(m)),
    decreases monikers.len(),
{
    reveal(Seq::filter);
    if monikers.len() > 0 {
        unexpected_keeps_order(monikers.drop_last(), allowed);
    }
}

/// The violations are, question by question and in order, what came up and is not allowed; questions
/// to which nothing such came up are left out.
pub proof fn violations_keep_order(allowlist: Seq<EntryView>, responses: Seq<ResponseView>)
    requires
        responses.len() <= allowlist.len(),
    ensures
        violations(allowlist, responses) == Seq::new(
            responses.len(),
            |i: int|
                EntryView {
                    query: allowlist[i].query,
                    components: responses[i].monikers.filter(
                        |m: Seq<char>| !allowlist[i].components.contains(m),
                    ),
                },
        ).filter(|e: EntryView| e.components.len() > 0),
    decreases responses.len(),
{
    reveal(Seq::filter);
    let entry = |i: int|
        EntryView {
            query: allowlist[i].query,
            components: responses[i].monikers.filter(
                |m: Seq<char>| !allowlist[i].components.contains(m),
            ),
        };
    let all = Seq::new(responses.len(), entry);
    let keep = |e: EntryView| e.components.len() > 0;
    if responses.len() > 0 {
        let front = responses.drop_last();
        let n = responses.len() - 1;
        violations_keep_order(allowlist, front);
        let some = Seq::new(
            front.len(),
            |i: int|
                EntryView {
                    query: allowlist[i].query,
                    components: front[i].monikers.filter(
                        |m: Seq<char>| !allowlist[i].components.contains(m),
                    ),
                },
        );
        assert(all.drop_last() =~= some) by {
            assert forall|i: int| 0 <= i < some.len() implies all.drop_last()[i] == some[i] by {
                assert(front[i] == responses[i]);
            }
        }
        unexpected_keeps_order(responses[n].monikers, allowlist[n].components);
        assert(all.last() == entry(n));
        assert(all.filter(keep) == if keep(all.last()) {
            all.drop_last().filter(keep).push(all.last())
        } else {
            all.drop_last().filter(keep)
        });
    } else {
        assert(all =~= Seq::empty());
    }
}

/// A verdict on all answers is good just when everything that came up is allowed, and then tells all
/// files that some answer depends on; otherwise it lists what came up and is not allowed.
pub proof fn verdict_is_right(
    verdict: Result<Deps, AllowList>,
    allowlist: Seq<EntryView>,
    responses: Seq<ResponseView>,
)
    requires
        responses.len() == allowlist.len(),
        is_verdict(verdict, allowlist, responses),
    ensures
        verdict is Ok <==> forall|i: int, m: Seq<char>|
            0 <= i < responses.len() && #[trigger] responses[i].monikers.contains(m)
                ==> allowlist[i].components.contains(m),
        verdict is Ok ==> forall|file: Seq<char>| #[trigger]
            verdict->Ok_0@.contains(file) <==> exists|i: int|
                0 <= i < responses.len() && (#[trigger] responses[i]).deps.contains(file),
        verdict is Err ==> verdict->Err_0@ == Seq::new(
            responses.len(),
            |i: int|
                EntryView {
                    query: allowlist[i].query,
                    components: responses[i].monikers.filter(
                        |m: Seq<char>| !allowlist[i].components.contains(m),
                    ),
                },
        ).filter(|e: EntryView| e.components.len() > 0),
{
    no_violation_means_all_allowed(allowlist, responses);
    violations_keep_order(allowlist, responses);
    if verdict is Ok {
        assert forall|file: Seq<char>| #[trigger]
            verdict->Ok_0@.contains(file) <==> exists|i: int|
                0 <= i < responses.len() && (#[trigger] responses[i]).deps.contains(file) by {
            dependencies_are_collected(responses, file);
        }
    }
}

/// Of two different texts, the one comes first that is a prefix of the other, or that has the
/// smaller character where they first differ.
pub proof fn first_difference_decides(a: Seq<char>, b: Seq<char>, k: int)
    requires
        0 <= k <= a.len(),
        k <= b.len(),
        forall|i: int| 0 <= i < k ==> a[i] == b[i],
        k < a.len() && k < b.len() ==> a[k] != b[k],
    ensures
        text_before(a, b) <==> (k < b.len() && (k == a.len() || a[k] < b[k])),
    decreases k,
{
    if k > 0 {
        let a1 = a.drop_first();
        let b1 = b.drop_first();
        assert forall|i: int| 0 <= i < k - 1 implies a1[i] == b1[i] by {
            assert(a[i + 1] == b[i + 1]);
        }
        first_difference_decides(a1, b1, k - 1);
    }
}

/// Strings are in order, each of them once, just when each comes before those that follow it.
pub proof fn order_is_by_pairs(strings: Seq<Seq<char>>)
    ensures
        in_order(strings) <==> forall|i: int, j: int|
            #![trigger strings[i], strings[j]]
            0 <= i < j < strings.len() ==> text_before(strings[i], strings[j]),
        in_order(strings) ==> strings.no_duplicates(),
{
    if in_order(strings) {
        assert forall|i: int, j: int|
            0 <= i < strings.len() && 0 <= j < strings.len() && i != j implies strings[i]
            != strings[j] by {
            lemma_text_irreflexive(strings[i]);
            if i < j {
                assert(text_before(strings[i], strings[j]));
            } else {
                assert(text_before(strings[j], strings[i]));
            }
        }
    }
}

/// A view of an answer or of a list holds the characters of its strings, in their places.
pub proof fn views_hold_the_texts(
    strings: Seq<String>,
    response: ComponentResolversResponse,
    entry: AllowListEntry,
)
    ensures
        texts(strings).len() == strings.len(),
        forall|i: int| 0 <= i < strings.len() ==> #[trigger] texts(strings)[i] == strings[i]@,
        response@.monikers == texts(response.monikers@),
        forall|file: Seq<char>| #[trigger]
            response@.deps.contains(file) <==> exists|i: int|
                0 <= i < response.deps@.len() && (#[trigger] response.deps@[i])@ == file,
        entry@.components == texts(entry.components@),
        entry@.query.scheme == entry.query.scheme@,
        entry@.query.moniker == entry.query.moniker@,
        entry@.query.protocol == entry.query.protocol@,
{
    assert forall|file: Seq<char>| #[trigger]
        response@.deps.contains(file) <==> exists|i: int|
            0 <= i < response.deps@.len() && (#[trigger] response.deps@[i])@ == file by {
        let deps = texts(response.deps@);
        if deps.contains(file) {
            let i = choose|i: int| 0 <= i < deps.len() && deps[i] == file;
            assert(response.deps@[i]@ == file);
        }
        if exists|i: int|
            0 <= i < response.deps@.len() && (#[trigger] response.deps@[i])@ == file {
            let i = choose|i: int|
                0 <= i < response.deps@.len() && (#[trigger] response.deps@[i])@ == file;
            assert(deps[i] == file);
        }
    }
}

// -- Asking a build's analysis --

/// A command for the analysis of a build.
#[derive(Debug)]
pub struct ScrutinyCommand {
    pub name: String,
    /// The parameters, each with its name.
    pub params: Vec<(String, String)>,
    pub plugins: Vec<String>,
    pub build_path: String,
    pub repository_path: String,
    pub silent_mode: bool,
}

/// Asks the analysis of a build.
#[derive(Debug)]
pub struct ScrutinyQueryComponentResolvers {
    pub build_dir: String,
}

/// The characters of pairs of strings.
pub open spec fn pairs(strings: Seq<(String, String)>) -> Seq<(Seq<char>, Seq<char>)> {
    Seq::new(strings.len(), |i: int| (strings[i].0@, strings[i].1@))
}

impl ScrutinyQueryComponentResolvers {
    /// The command that asks a question.
    pub fn command(&self, request: &ComponentResolversRequest) -> (result: ScrutinyCommand)
        ensures
            result.name@ == "verify.component_resolvers"@,
            pairs(result.params@) == seq![
                ("scheme"@, request.scheme@),
                ("moniker"@, request.moniker@),
                ("protocol"@, request.protocol@),
            ],
            texts(result.plugins@) == seq![
                "DevmgrConfigPlugin"@,
                "StaticPkgsPlugin"@,
                "CorePlugin"@,
                "VerifyPlugin"@,
            ],
            result.build_path@ == self.build_dir@,
            result.repository_path@ == joined(self.build_dir@, REPOSITORY_PATH@),
            result.silent_mode,
    {
        let mut params: Vec<(String, String)> = Vec::new();
        params.push(("scheme".to_owned(), request.scheme.clone()));
        params.push(("moniker".to_owned(), request.moniker.clone()));
        params.push(("protocol".to_owned(), request.protocol.clone()));
        let mut plugins: Vec<String> = Vec::new();
        plugins.push("DevmgrConfigPlugin".to_owned());
        plugins.push("StaticPkgsPlugin".to_owned());
        plugins.push("CorePlugin".to_owned());
        plugins.push("VerifyPlugin".to_owned());
        let repository_path = join(self.build_dir.as_str(), REPOSITORY_PATH);
        proof {
            assert(pairs(params@) =~= seq![
                ("scheme"@, request.scheme@),
                ("moniker"@, request.moniker@),
                ("protocol"@, request.protocol@),
            ]);
            assert(texts(plugins@) =~= seq![
                "DevmgrConfigPlugin"@,
                "StaticPkgsPlugin"@,
                "CorePlugin"@,
                "VerifyPlugin"@,
            ]);
        }
        ScrutinyCommand {
            name: "verify.component_resolvers".to_owned(),
            params,
            plugins,
            build_path: self.build_dir.clone(),
            repository_path,
            silent_mode: true,
        }
    }

    /// Tells an error from a result: what the analysis prints is an error if it starts so.
    pub fn interpret(results: String) -> (result: Result<String, QueryError>)
        ensures
            result is Err <==> "Error: "@.is_prefix_of(results@),
            result is Ok ==> result->Ok_0@ == results@,
            result is Err ==> result->Err_0.message@ == results@,
    {
        if starts_with(results.as_str(), "Error: ") {
            Err(QueryError { message: results })
        } else {
            Ok(results)
        }
    }
}

} // verus!
