//! The value tree of a document: maps, lists and primitives.

use vstd::prelude::*;

verus! {

/// A value tree as a mathematical object. In a map no key occurs twice and
/// the members have no order.
pub ghost enum Tree {
    Null,
    Bool(bool),
    Int(int),
    Float(u64),
    Str(Seq<char>),
    Bytes(Seq<u8>),
    List(Seq<Tree>),
    Dict(Map<Seq<char>, Tree>),
}

/// One member of a map: a key and the value under it.
#[derive(Debug, PartialEq, Eq)]
pub struct Member {
    pub key: String,
    pub value: Datum,
}

/// A value of a document. A floating-point number is held by its bits. A
/// map is a list of members; where a key occurs twice, the first member
/// counts.
///
/// `==` compares member by member, in order. The members of a map that a
/// backend hands out come in no fixed order, so two values of one document
/// may compare unequal: `same_tree` says whether two values stand for the
/// same tree.
#[derive(Debug, PartialEq, Eq)]
pub enum Datum {
    Null,
    Bool(bool),
    Int(i64),
    Uint(u64),
    Float(u64),
    Str(String),
    Bytes(Vec<u8>),
    List(Vec<Datum>),
    Dict(Vec<Member>),
}

/// The map that a list of members stands for: the first member of a key
/// counts.
pub open spec fn members_tree(members: Seq<Member>) -> Map<Seq<char>, Tree>
    decreases members,
{
    if members.len() == 0 {
        Map::empty()
    } else {
        members_tree(members.drop_first()).insert(members[0].key@, members[0].value.tree())
    }
}

/// The trees of a list of values, in order.
pub open spec fn values_tree(values: Seq<Datum>) -> Seq<Tree>
    decreases values,
{
    if values.len() == 0 {
        Seq::empty()
    } else {
        values_tree(values.drop_last()).push(values.last().tree())
    }
}

impl Datum {
    /// The tree that this value stands for.
    pub open spec fn tree(self) -> Tree
        decreases self,
    {
        match self {
            Datum::Null => Tree::Null,
            Datum::Bool(b) => Tree::Bool(b),
            Datum::Int(i) => Tree::Int(i as int),
            Datum::Uint(u) => Tree::Int(u as int),
            Datum::Float(bits) => Tree::Float(bits),
            Datum::Str(s) => Tree::Str(s@),
            Datum::Bytes(b) => Tree::Bytes(b@),
            Datum::List(items) => Tree::List(values_tree(items@)),
            Datum::Dict(members) => Tree::Dict(members_tree(members@)),
        }
    }
}

/// A value as plain values, with the members of a map in their order: what
/// is written when the value is handed to the document engine.
pub ghost enum Plan {
    Null,
    Bool(bool),
    Int(i64),
    Uint(u64),
    Float(u64),
    Str(Seq<char>),
    Bytes(Seq<u8>),
    List(Seq<Plan>),
    Dict(Seq<(Seq<char>, Plan)>),
}

/// The plans of a list of values, in order.
pub open spec fn values_plan(values: Seq<Datum>) -> Seq<Plan>
    decreases values,
{
    if values.len() == 0 {
        Seq::empty()
    } else {
        values_plan(values.drop_last()).push(values.last().plan())
    }
}

/// The keys and plans of a list of members, in order.
pub open spec fn members_plan(members: Seq<Member>) -> Seq<(Seq<char>, Plan)>
    decreases members,
{
    if members.len() == 0 {
        Seq::empty()
    } else {
        members_plan(members.drop_last()).push((members.last().key@, members.last().value.plan()))
    }
}

impl Datum {
    /// The value as plain values, with the members of a map in their order.
    pub open spec fn plan(self) -> Plan
        decreases self,
    {
        match self {
            Datum::Null => Plan::Null,
            Datum::Bool(b) => Plan::Bool(b),
            Datum::Int(i) => Plan::Int(i),
            Datum::Uint(u) => Plan::Uint(u),
            Datum::Float(bits) => Plan::Float(bits),
            Datum::Str(s) => Plan::Str(s@),
            Datum::Bytes(b) => Plan::Bytes(b@),
            Datum::List(items) => Plan::List(values_plan(items@)),
            Datum::Dict(members) => Plan::Dict(members_plan(members@)),
        }
    }
}

/// One step of a path into a value tree: into a map by a key, or into a
/// list by a position.
#[derive(Debug, Clone, PartialEq, Eq)]
pub enum Step {
    Key(String),
    Index(usize),
}

/// A step as plain values.
pub ghost enum StepView {
    Key(Seq<char>),
    Index(nat),
}

impl View for Step {
    type V = StepView;

    open spec fn view(&self) -> StepView {
        match self {
            Step::Key(k) => StepView::Key(k@),
            Step::Index(i) => StepView::Index(*i as nat),
        }
    }
}

/// The steps of a list as plain values.
pub open spec fn step_views(steps: Seq<Step>) -> Seq<StepView> {
    steps.map_values(|s: Step| s@)
}

/// The tree that one step from `tree` leads to.
pub open spec fn step_from(tree: Tree, step: StepView) -> Option<Tree> {
    match (tree, step) {
        (Tree::Dict(map), StepView::Key(key)) => if map.dom().contains(key) {
            Some(map[key])
        } else {
            None
        },
        (Tree::List(items), StepView::Index(i)) => if i < items.len() {
            Some(items[i as int])
        } else {
            None
        },
        _ => None,
    }
}

/// The tree that the steps lead to from `tree`, taken in order.
pub open spec fn tree_at(tree: Tree, path: Seq<StepView>) -> Option<Tree>
    decreases path.len(),
{
    if path.len() == 0 {
        Some(tree)
    } else {
        match tree_at(tree, path.drop_last()) {
            Some(inner) => step_from(inner, path.last()),
            None => None,
        }
    }
}

/// The plan of a list of members that is longer by one member.
pub proof fn lemma_members_plan_push(members: Seq<Member>, m: Member)
    ensures
        members_plan(members.push(m)) == members_plan(members).push((m.key@, m.value.plan())),
{
    assert(members.push(m).drop_last() =~= members);
}

/// The tree at position `i` of a list of values is the tree of the value
/// there.
pub proof fn lemma_values_tree(values: Seq<Datum>)
    ensures
        values_tree(values).len() == values.len(),
        forall|i: int| 0 <= i < values.len() ==> (#[trigger] values_tree(values)[i]) == values[i].tree(),
    decreases values.len(),
{
    if values.len() > 0 {
        lemma_values_tree(values.drop_last());
    }
}

/// A key that no member has is not in the map.
pub proof fn lemma_no_member(members: Seq<Member>, key: Seq<char>)
    requires
        forall|j: int| 0 <= j < members.len() ==> (#[trigger] members[j]).key@ != key,
    ensures
        !members_tree(members).dom().contains(key),
    decreases members.len(),
{
    if members.len() > 0 {
        let rest = members.drop_first();
        assert forall|j: int| 0 <= j < rest.len() implies (#[trigger] rest[j]).key@ != key by {
            assert(rest[j] == members[j + 1]);
        }
        lemma_no_member(rest, key);
    }
}

/// The first member that has a key gives the value under that key.
pub proof fn lemma_first_member(members: Seq<Member>, at: int)
    requires
        0 <= at < members.len(),
        forall|j: int| 0 <= j < at ==> (#[trigger] members[j]).key@ != members[at].key@,
    ensures
        members_tree(members).dom().contains(members[at].key@),
        members_tree(members)[members[at].key@] == members[at].value.tree(),
    decreases members.len(),
{
    if at > 0 {
        let rest = members.drop_first();
        assert forall|j: int| 0 <= j < at - 1 implies (#[trigger] rest[j]).key@ != rest[at - 1].key@ by {
            assert(rest[j] == members[j + 1]);
        }
        lemma_first_member(rest, at - 1);
        assert(members[0].key@ != members[at].key@);
    }
}

/// Where a path leads nowhere after its first `n` steps, it leads nowhere.
pub proof fn lemma_tree_at_stays_none(tree: Tree, path: Seq<StepView>, n: int)
    requires
        0 <= n <= path.len(),
        tree_at(tree, path.take(n)) is None,
    ensures
        tree_at(tree, path) is None,
    decreases path.len() - n,
{
    if n < path.len() {
        assert(path.take(n + 1).drop_last() =~= path.take(n));
        lemma_tree_at_stays_none(tree, path, n + 1);
    } else {
        assert(path.take(n) =~= path);
    }
}

/// The key of every member is in the map.
pub proof fn lemma_member_in_dom(members: Seq<Member>, at: int)
    requires
        0 <= at < members.len(),
    ensures
        members_tree(members).dom().contains(members[at].key@),
    decreases members.len(),
{
    if at > 0 {
        let rest = members.drop_first();
        assert(rest[at - 1] == members[at]);
        lemma_member_in_dom(rest, at - 1);
    }
}

/// Every key of the map is the key of a member.
pub proof fn lemma_dom_has_member(members: Seq<Member>, key: Seq<char>) -> (at: int)
    requires
        members_tree(members).dom().contains(key),
    ensures
        0 <= at < members.len(),
        members[at].key@ == key,
{
    if forall|j: int| 0 <= j < members.len() ==> (#[trigger] members[j]).key@ != key {
        lemma_no_member(members, key);
    }
    choose|j: int| 0 <= j < members.len() && (#[trigger] members[j]).key@ == key
}

/// Whether two byte strings are equal.
pub fn same_bytes(a: &Vec<u8>, b: &Vec<u8>) -> (r: bool)
    ensures
        r == (a@ == b@),
{
    if a.len() != b.len() {
        return false;
    }
    let mut i: usize = 0;
    while i < a.len()
        invariant
            i <= a.len(),
            a.len() == b.len(),
            forall|j: int| 0 <= j < i ==> a@[j] == b@[j],
        decreases a.len() - i,
    {
        if a[i] != b[i] {
            return false;
        }
        i += 1;
    }
    proof {
        assert(a@ =~= b@);
    }
    true
}

/// Whether no member before position `at` has the key of the member there.
fn first_of_its_key(members: &Vec<Member>, at: usize) -> (r: bool)
    requires
        at < members@.len(),
    ensures
        r == forall|j: int| 0 <= j < at ==> (#[trigger] members@[j]).key@ != members@[at as int].key@,
{
    let mut j: usize = 0;
    while j < at
        invariant
            j <= at < members@.len(),
            forall|a: int| 0 <= a < j ==> (#[trigger] members@[a]).key@ != members@[at as int].key@,
        decreases at - j,
    {
        if members[j].key == members[at].key {
            return false;
        }
        j += 1;
    }
    true
}

/// The member at position `at` agrees with the other map: its key is
/// there, under the same tree.
pub open spec fn member_agrees(a: Seq<Member>, b: Seq<Member>, at: int) -> bool {
    members_tree(b).dom().contains(a[at].key@) && members_tree(a)[a[at].key@] == members_tree(
        b,
    )[a[at].key@]
}

/// The value under `key` in a list of members, if there is one.
pub fn find_member<'a>(members: &'a Vec<Member>, key: &String) -> (r: Option<&'a Datum>)
    ensures
        r matches Some(v) ==> members_tree(members@).dom().contains(key@) && members_tree(
            members@,
        )[key@] == v.tree(),
        r is None ==> !members_tree(members@).dom().contains(key@),
{
    let mut i: usize = 0;
    while i < members.len()
        invariant
            i <= members.len(),
            forall|j: int| 0 <= j < i ==> (#[trigger] members@[j]).key@ != key@,
        decreases members.len() - i,
    {
        if members[i].key == *key {
            proof {
                lemma_first_member(members@, i as int);
            }
            return Some(&members[i].value);
        }
        i += 1;
    }
    proof {
        lemma_no_member(members@, key@);
    }
    None
}

impl Datum {
    /// The value under `key`, where this value is a map that has the key.
    pub open spec fn child_spec(tree: Tree, key: Seq<char>) -> Option<Tree> {
        match tree {
            Tree::Dict(map) => if map.dom().contains(key) {
                Some(map[key])
            } else {
                None
            },
            _ => None,
        }
    }

    /// The value under `key`, where this value is a map that has the key.
    pub fn child(&self, key: &String) -> (r: Option<&Datum>)
        ensures
            r matches Some(v) ==> Self::child_spec(self.tree(), key@) == Some(v.tree()),
            r is None ==> Self::child_spec(self.tree(), key@) is None,
    {
        match self {
            Datum::Dict(members) => find_member(members, key),
            _ => None,
        }
    }

    /// The text of this value, where it is a string.
    pub open spec fn text_spec(tree: Tree) -> Option<Seq<char>> {
        match tree {
            Tree::Str(s) => Some(s),
            _ => None,
        }
    }

    /// The text of this value, where it is a string.
    pub fn text(&self) -> (r: Option<&String>)
        ensures
            r matches Some(s) ==> Self::text_spec(self.tree()) == Some(s@),
            r is None ==> Self::text_spec(self.tree()) is None,
    {
        match self {
            Datum::Str(s) => Some(s),
            _ => None,
        }
    }

    /// Whether two values stand for the same tree: the same primitive, lists
    /// with the same trees in the same order, or maps with the same keys and
    /// the same tree under each. The order of the members of a map does not
    /// count, and an integer is the same whether signed or not.
    #[verifier::rlimit(40)]
    pub fn same_tree(&self, other: &Datum) -> (r: bool)
        ensures
            r == (self.tree() == other.tree()),
        decreases self,
    {
        match (self, other) {
            (Datum::Null, Datum::Null) => true,
            (Datum::Bool(a), Datum::Bool(b)) => *a == *b,
            (Datum::Int(a), Datum::Int(b)) => *a == *b,
            (Datum::Uint(a), Datum::Uint(b)) => *a == *b,
            (Datum::Int(a), Datum::Uint(b)) => *a >= 0 && *b <= 0x7fff_ffff_ffff_ffff && *a == *b as i64,
            (Datum::Uint(a), Datum::Int(b)) => *b >= 0 && *a <= 0x7fff_ffff_ffff_ffff && *b == *a as i64,
            (Datum::Float(a), Datum::Float(b)) => *a == *b,
            (Datum::Str(a), Datum::Str(b)) => *a == *b,
            (Datum::Bytes(a), Datum::Bytes(b)) => same_bytes(a, b),
            (Datum::List(a), Datum::List(b)) => {
                proof {
                    lemma_values_tree(a@);
                    lemma_values_tree(b@);
                }
                if a.len() != b.len() {
                    return false;
                }
                let mut i: usize = 0;
                while i < a.len()
                    invariant
                        i <= a.len(),
                        a.len() == b.len(),
                        *self == Datum::List(*a),
                        *other == Datum::List(*b),
                        forall|j: int| 0 <= j < i ==> (#[trigger] a@[j]).tree() == b@[j].tree(),
                    decreases a.len() - i,
                {
                    let item = &a[i];
                    proof {
                        assert(self->List_0 == *a);
                        assert(decreases_to!(*self => self->List_0));
                        assert(decreases_to!(*a => *item));
                    }
                    if !item.same_tree(&b[i]) {
                        proof {
                            lemma_values_tree(a@);
                            lemma_values_tree(b@);
                            assert(values_tree(a@)[i as int] != values_tree(b@)[i as int]);
                        }
                        return false;
                    }
                    i += 1;
                }
                proof {
                    lemma_values_tree(a@);
                    lemma_values_tree(b@);
                    assert(values_tree(a@) =~= values_tree(b@));
                }
                true
            },
            (Datum::Dict(a), Datum::Dict(b)) => {
                let mut i: usize = 0;
                while i < a.len()
                    invariant
                        i <= a.len(),
                        *self == Datum::Dict(*a),
                        *other == Datum::Dict(*b),
                        forall|j: int| 0 <= j < i ==> member_agrees(a@, b@, j),
                    decreases a.len() - i,
                {
                    let member = &a[i];
                    proof {
                        assert(self->Dict_0 == *a);
                        assert(decreases_to!(*self => self->Dict_0));
                        assert(decreases_to!(*a => *member));
                        assert(decreases_to!(*member => member.value));
                        lemma_member_in_dom(a@, i as int);
                    }
                    let first = first_of_its_key(a, i);
                    match find_member(b, &member.key) {
                        None => {
                            return false;
                        },
                        Some(theirs) => {
                            if first {
                                proof {
                                    lemma_first_member(a@, i as int);
                                }
                                if !member.value.same_tree(theirs) {
                                    return false;
                                }
                            } else {
                                proof {
                                    let j = choose|j: int|
                                        0 <= j < i && (#[trigger] a@[j]).key@ == a@[i as int].key@;
                                    assert(member_agrees(a@, b@, j));
                                }
                            }
                        },
                    }
                    i += 1;
                }
                let mut i: usize = 0;
                while i < b.len()
                    invariant
                        i <= b.len(),
                        *self == Datum::Dict(*a),
                        *other == Datum::Dict(*b),
                        forall|j: int| 0 <= j < a@.len() ==> member_agrees(a@, b@, j),
                        forall|j: int|
                            0 <= j < i ==> members_tree(a@).dom().contains((#[trigger] b@[j]).key@),
                    decreases b.len() - i,
                {
                    if find_member(a, &b[i].key).is_none() {
                        proof {
                            lemma_member_in_dom(b@, i as int);
                        }
                        return false;
                    }
                    i += 1;
                }
                proof {
                    let ours = members_tree(a@);
                    let theirs = members_tree(b@);
                    assert forall|k: Seq<char>| #[trigger]
                        ours.dom().contains(k) implies theirs.dom().contains(k) && ours[k]
                        == theirs[k] by {
                        let j = lemma_dom_has_member(a@, k);
                        assert(member_agrees(a@, b@, j));
                    }
                    assert forall|k: Seq<char>| #[trigger]
                        theirs.dom().contains(k) implies ours.dom().contains(k) by {
                        let j = lemma_dom_has_member(b@, k);
                        assert(ours.dom().contains(b@[j].key@));
                    }
                    assert(ours.dom() =~= theirs.dom());
                    assert(ours =~= theirs);
                }
                true
            },
            _ => false,
        }
    }

    /// The items of this value, where it is a list.
    pub open spec fn items_spec(tree: Tree) -> Option<Seq<Tree>> {
        match tree {
            Tree::List(items) => Some(items),
            _ => None,
        }
    }

    /// The value that one step leads to.
    pub fn step(&self, step: &Step) -> (r: Option<&Datum>)
        ensures
            r matches Some(v) ==> step_from(self.tree(), step@) == Some(v.tree()),
            r is None ==> step_from(self.tree(), step@) is None,
    {
        match (self, step) {
            (Datum::Dict(members), Step::Key(key)) => find_member(members, key),
            (Datum::List(items), Step::Index(i)) => {
                proof {
                    lemma_values_tree(items@);
                }
                if *i < items.len() {
                    Some(&items[*i])
                } else {
                    None
                }
            },
            _ => None,
        }
    }

    /// The value that the steps lead to, taken in order.
    pub fn at(&self, path: &Vec<Step>) -> (r: Option<&Datum>)
        ensures
            r matches Some(v) ==> tree_at(self.tree(), step_views(path@)) == Some(v.tree()),
            r is None ==> tree_at(self.tree(), step_views(path@)) is None,
    {
        proof {
            assert(step_views(path@).take(path@.len() as int) =~= step_views(path@));
        }
        self.at_prefix(path, path.len())
    }

    /// The value that the first `n` steps lead to, taken in order.
    pub fn at_prefix(&self, path: &Vec<Step>, n: usize) -> (r: Option<&Datum>)
        requires
            n <= path@.len(),
        ensures
            r matches Some(v) ==> tree_at(self.tree(), step_views(path@).take(n as int)) == Some(
                v.tree(),
            ),
            r is None ==> tree_at(self.tree(), step_views(path@).take(n as int)) is None,
    {
        let mut here: &Datum = self;
        let mut i: usize = 0;
        proof {
            assert(step_views(path@).take(0) =~= Seq::<StepView>::empty());
        }
        while i < n
            invariant
                i <= n <= path@.len(),
                tree_at(self.tree(), step_views(path@).take(i as int)) == Some(here.tree()),
            decreases n - i,
        {
            proof {
                let steps = step_views(path@);
                assert(steps.take(i + 1).drop_last() =~= steps.take(i as int));
                assert(steps.take(i + 1).last() == path@[i as int]@);
            }
            match here.step(&path[i]) {
                Some(next) => {
                    here = next;
                },
                None => {
                    proof {
                        let wanted = step_views(path@).take(n as int);
                        assert(wanted.take(i + 1) =~= step_views(path@).take(i + 1));
                        lemma_tree_at_stays_none(self.tree(), wanted, i + 1);
                    }
                    return None;
                },
            }
            i += 1;
        }
        Some(here)
    }

    /// The items of this value, where it is a list.
    pub fn items(&self) -> (r: Option<&Vec<Datum>>)
        ensures
            r matches Some(items) ==> Self::items_spec(self.tree()) == Some(values_tree(items@)),
            r is None ==> Self::items_spec(self.tree()) is None,
    {
        match self {
            Datum::List(items) => Some(items),
            _ => None,
        }
    }
}

} // verus!
