//! Names given to views while a template is loaded, and the resolution of
//! the names that parts of the template wait for.
use vstd::prelude::*;

verus! {

/// A table from names to views, held in a `hashbrown::HashMap`.
#[verifier::external_body]
pub struct NameTable {
    map: hashbrown::HashMap<String, usize>,
}

/// What a name table holds: each name with the view it stands for.
pub uninterp spec fn name_table(t: NameTable) -> Map<Seq<char>, usize>;

/// `hashbrown::HashMap::new`: a new map holds nothing.
#[verifier::external_body]
fn table_new() -> (table: NameTable)
    ensures
        name_table(table) =~= Map::empty(),
{
    NameTable { map: hashbrown::HashMap::new() }
}

/// `hashbrown::HashMap::insert`: afterwards the key maps to the value, the
/// other keys are unchanged; returns what the key mapped to before, if it
/// was there.
#[verifier::external_body]
fn table_insert(t: &mut NameTable, name: &str, obj: usize) -> (prev: Option<usize>)
    ensures
        name_table(*final(t)) == name_table(*old(t)).insert(name@, obj),
        prev == (if name_table(*old(t)).contains_key(name@) {
            Some(name_table(*old(t))[name@])
        } else {
            None
        }),
{
    t.map.insert(name.to_string(), obj)
}

/// `hashbrown::HashMap::get`: the value of the key, if it is there.
#[verifier::external_body]
fn table_get(t: &NameTable, name: &str) -> (res: Option<usize>)
    ensures
        res == (if name_table(*t).contains_key(name@) {
            Some(name_table(*t)[name@])
        } else {
            None
        }),
{
    t.map.get(name).copied()
}

/// The names of a loaded template, each standing for one view.
pub struct Names {
    table: NameTable,
}

impl View for Names {
    type V = Map<Seq<char>, usize>;

    closed spec fn view(&self) -> Map<Seq<char>, usize> {
        name_table(self.table)
    }
}

/// What a name stands for in `m`, if anything.
pub open spec fn spec_find(m: Map<Seq<char>, usize>, name: Seq<char>) -> Option<usize> {
    if m.contains_key(name) {
        Some(m[name])
    } else {
        None
    }
}

impl Names {
    pub fn new() -> (res: Names)
        ensures
            res@ == Map::<Seq<char>, usize>::empty(),
    {
        Names { table: table_new() }
    }

    /// Gives `obj` the name `name`. Returns whether the name stood for a
    /// view already; the later view takes the name over.
    pub fn register(&mut self, name: &str, obj: usize) -> (conflict: bool)
        ensures
            final(self)@ == old(self)@.insert(name@, obj),
            conflict == old(self)@.contains_key(name@),
    {
        let prev = table_insert(&mut self.table, name, obj);
        prev.is_some()
    }

    /// The view that `name` stands for, if any.
    pub fn find(&self, name: &str) -> (res: Option<usize>)
        ensures
            res == spec_find(self@, name@),
    {
        table_get(&self.table, name)
    }
}

/// The names of the clients, in order.
pub open spec fn client_names<C>(clients: Seq<(String, bool, C)>) -> Seq<Seq<char>> {
    clients.map_values(|c: (String, bool, C)| c.0@)
}

/// Whether each client, in order, makes the view when its name stands for
/// none.
pub open spec fn client_creates<C>(clients: Seq<(String, bool, C)>) -> Seq<bool> {
    clients.map_values(|c: (String, bool, C)| c.1)
}

/// Client `i` gets nothing from the names alone: its name stood for no view
/// at the start and no earlier client of that name got one.
pub open spec fn unnamed_before(
    start: Map<Seq<char>, usize>,
    names: Seq<Seq<char>>,
    given: Seq<Option<usize>>,
    i: int,
) -> bool {
    &&& !start.contains_key(names[i])
    &&& forall|j: int| 0 <= j < i && names[j] == names[i] ==> given[j] is None
}

/// What `finish` gives back holds together: each client that was handed a
/// view got the one its name stands for at the end; names that stood for a
/// view at the start still do, and their clients got that view; a client
/// gets nothing exactly when its name stood for none at the start, no
/// earlier client of that name got a view, and it was not queued to make
/// one; the names at the end are those of the start and those of clients
/// that got a view.
pub open spec fn resolved(
    start: Map<Seq<char>, usize>,
    names: Seq<Seq<char>>,
    creates: Seq<bool>,
    end: Map<Seq<char>, usize>,
    given: Seq<Option<usize>>,
) -> bool {
    &&& given.len() == names.len()
    &&& creates.len() == names.len()
    &&& forall|i: int|
        0 <= i < names.len() ==> match #[trigger] given[i] {
            Some(e) => end.contains_key(names[i]) && end[names[i]] == e,
            None => true,
        }
    &&& forall|i: int|
        0 <= i < names.len() ==> ((#[trigger] given[i] is None) <==> (unnamed_before(start, names, given, i)
            && !creates[i]))
    &&& forall|i: int|
        0 <= i < names.len() && #[trigger] start.contains_key(names[i]) ==> given[i] == Some(
            start[names[i]],
        )
    &&& forall|k: Seq<char>| #[trigger] start.contains_key(k) ==> end.contains_key(k) && end[k] == start[k]
    &&& forall|k: Seq<char>|
        #[trigger] end.contains_key(k) ==> start.contains_key(k) || exists|i: int|
            0 <= i < names.len() && names[i] == k && given[i] is Some
}

/// Once a view is given a name, looking the name up finds that view.
pub proof fn law_find_after_register(m: Map<Seq<char>, usize>, name: Seq<char>, obj: usize)
    ensures
        spec_find(m.insert(name, obj), name) == Some(obj),
{
}

/// All the clients of one name that are handed a view are handed the same
/// view.
pub proof fn law_one_view_per_name(
    start: Map<Seq<char>, usize>,
    names: Seq<Seq<char>>,
    creates: Seq<bool>,
    end: Map<Seq<char>, usize>,
    given: Seq<Option<usize>>,
    i: int,
    j: int,
)
    requires
        resolved(start, names, creates, end, given),
        0 <= i < names.len(),
        0 <= j < names.len(),
        names[i] == names[j],
        given[i] is Some,
        given[j] is Some,
    ensures
        given[i] == given[j],
{
    assert(given[i] matches Some(e) && end[names[i]] == e);
    assert(given[j] matches Some(e) && end[names[j]] == e);
}

/// One client handled: given the names so far (`names0`), the client of
/// name `name` gets `obj`, and the names become `names1`.
pub open spec fn handled_one(
    names0: Map<Seq<char>, usize>,
    name: Seq<char>,
    creates: bool,
    obj: Option<usize>,
    names1: Map<Seq<char>, usize>,
) -> bool {
    if names0.contains_key(name) {
        obj == Some(names0[name]) && names1 == names0
    } else if creates {
        obj is Some && names1 == names0.insert(name, obj.unwrap())
    } else {
        obj is None && names1 == names0
    }
}

/// Handling one more client the way `handled_one` says keeps `resolved`.
proof fn lemma_handle_one(
    start: Map<Seq<char>, usize>,
    done: Seq<Seq<char>>,
    donec: Seq<bool>,
    names0: Map<Seq<char>, usize>,
    given0: Seq<Option<usize>>,
    name: Seq<char>,
    creates: bool,
    obj: Option<usize>,
    names1: Map<Seq<char>, usize>,
)
    requires
        resolved(start, done, donec, names0, given0),
        handled_one(names0, name, creates, obj, names1),
    ensures
        resolved(start, done.push(name), donec.push(creates), names1, given0.push(obj)),
{
    let d1 = done.push(name);
    let c1 = donec.push(creates);
    let g1 = given0.push(obj);
    let n = done.len() as int;
    assert(d1[n] == name);
    assert(c1[n] == creates);
    assert(g1[n] == obj);
    assert forall|i: int| 0 <= i < n implies #[trigger] d1[i] == done[i] && g1[i] == given0[i] && c1[i]
        == donec[i] by {}
    // The name stands for a view exactly when the start named it or an
    // earlier client of it got a view.
    assert(names0.contains_key(name) <==> !unnamed_before(start, d1, g1, n)) by {
        if names0.contains_key(name) && !start.contains_key(name) {
            let j = choose|j: int| 0 <= j < n && done[j] == name && given0[j] is Some;
            assert(d1[j] == d1[n] && g1[j] is Some);
        }
        if !unnamed_before(start, d1, g1, n) && !start.contains_key(name) {
            let j = choose|j: int| 0 <= j < n && d1[j] == d1[n] && !(g1[j] is None);
            assert(given0[j] is Some && done[j] == name);
            assert(names0.contains_key(done[j]));
        }
    }
    assert forall|i: int| 0 <= i < n implies unnamed_before(start, d1, g1, i) == unnamed_before(
        start,
        done,
        given0,
        i,
    ) by {
        assert forall|j: int| 0 <= j < i implies d1[j] == done[j] && g1[j] == given0[j] by {}
    }
    if !names0.contains_key(name) {
        assert(!start.contains_key(name));
        assert forall|i: int| 0 <= i < n && (#[trigger] given0[i]) is Some implies done[i] != name by {
            assert(names0.contains_key(done[i]));
        }
    }
    assert forall|k: Seq<char>| #[trigger] names1.contains_key(k) implies start.contains_key(k) || exists|i: int|
        0 <= i < d1.len() && d1[i] == k && g1[i] is Some by {
        if k == name && !names0.contains_key(k) {
            assert(d1[n] == k && g1[n] is Some);
        } else if !start.contains_key(k) {
            assert(names0.contains_key(k));
            let i = choose|i: int| 0 <= i < done.len() && done[i] == k && given0[i] is Some;
            assert(d1[i] == k && g1[i] is Some);
        }
    }
}

/// Collects the names a template gives and the clients that wait for
/// names; `finish` then hands the clients their views one by one.
pub struct NameResolver<C> {
    pub names: Names,
    /// Each waiting client with its name and whether it makes the view
    /// when the name stands for none.
    pub clients: Vec<(String, bool, C)>,
}

/// What the next waiting client is to get.
#[derive(Clone, Copy, PartialEq, Eq, Debug, Structural)]
pub enum NextView {
    /// The view its name stands for.
    Give(usize),
    /// A view it makes, which its name then stands for.
    Make,
    /// Nothing: its name stands for no view and it makes none.
    Nothing,
}

/// The names of a template and its waiting clients, the first of which
/// have been handed their views.
pub struct Resolution {
    pub names: Names,
    /// Each client's name and whether it makes the view when the name
    /// stands for none, in order.
    pub asked: Vec<(String, bool)>,
    /// What each client handled so far got.
    pub given: Vec<Option<usize>>,
    /// The names before any client was handled.
    pub start: Ghost<Map<Seq<char>, usize>>,
}

impl Resolution {
    pub open spec fn asked_names(&self) -> Seq<Seq<char>> {
        self.asked@.map_values(|a: (String, bool)| a.0@)
    }

    pub open spec fn asked_creates(&self) -> Seq<bool> {
        self.asked@.map_values(|a: (String, bool)| a.1)
    }

    /// The clients handled so far were handled as `resolved` says.
    pub open spec fn wf(&self) -> bool {
        let k = self.given@.len() as int;
        &&& k <= self.asked@.len()
        &&& resolved(
            self.start@,
            self.asked_names().take(k),
            self.asked_creates().take(k),
            self.names@,
            self.given@,
        )
    }

    /// What the next client is to get; `None` when all are handled.
    pub open spec fn spec_next(&self) -> Option<NextView> {
        let k = self.given@.len() as int;
        if k >= self.asked@.len() {
            None
        } else if self.names@.contains_key(self.asked_names()[k]) {
            Some(NextView::Give(self.names@[self.asked_names()[k]]))
        } else if self.asked_creates()[k] {
            Some(NextView::Make)
        } else {
            Some(NextView::Nothing)
        }
    }

    pub fn next(&self) -> (res: Option<NextView>)
        ensures
            res == self.spec_next(),
    {
        let k = self.given.len();
        if k >= self.asked.len() {
            return None;
        }
        proof {
            assert(self.asked_names()[k as int] == self.asked@[k as int].0@);
        }
        match self.names.find(self.asked[k].0.as_str()) {
            Some(e) => Some(NextView::Give(e)),
            None => if self.asked[k].1 {
                Some(NextView::Make)
            } else {
                Some(NextView::Nothing)
            },
        }
    }

    /// Hands the next client the view its name stands for, or nothing where
    /// it stands for none and the client makes no view. Returns what the
    /// client gets.
    pub fn give_next(&mut self) -> (res: Option<usize>)
        requires
            old(self).wf(),
            old(self).spec_next() matches Some(v) && v != NextView::Make,
        ensures
            final(self).wf(),
            res == (match old(self).spec_next() {
                Some(NextView::Give(e)) => Some(e),
                _ => None,
            }),
            final(self).given@ == old(self).given@.push(res),
            final(self).names@ == old(self).names@,
            final(self).asked@ == old(self).asked@,
            final(self).start == old(self).start,
    {
        let k = self.given.len();
        proof {
            assert(self.asked_names()[k as int] == self.asked@[k as int].0@);
        }
        let res = self.names.find(self.asked[k].0.as_str());
        proof {
            let kk = k as int;
            lemma_handle_one(
                self.start@,
                self.asked_names().take(kk),
                self.asked_creates().take(kk),
                self.names@,
                self.given@,
                self.asked_names()[kk],
                self.asked_creates()[kk],
                res,
                self.names@,
            );
            assert(self.asked_names().take(kk + 1) =~= self.asked_names().take(kk).push(self.asked_names()[kk]));
            assert(self.asked_creates().take(kk + 1) =~= self.asked_creates().take(kk).push(
                self.asked_creates()[kk],
            ));
        }
        self.given.push(res);
        res
    }

    /// The next client made `obj`: its name now stands for `obj`, and the
    /// client gets it.
    pub fn made_next(&mut self, obj: usize)
        requires
            old(self).wf(),
            old(self).spec_next() == Some(NextView::Make),
        ensures
            final(self).wf(),
            final(self).given@ == old(self).given@.push(Some(obj)),
            final(self).names@ == old(self).names@.insert(
                old(self).asked_names()[old(self).given@.len() as int],
                obj,
            ),
            final(self).asked@ == old(self).asked@,
            final(self).start == old(self).start,
    {
        let k = self.given.len();
        proof {
            assert(self.asked_names()[k as int] == self.asked@[k as int].0@);
        }
        let ghost names0 = self.names@;
        self.names.register(self.asked[k].0.as_str(), obj);
        proof {
            let kk = k as int;
            lemma_handle_one(
                self.start@,
                self.asked_names().take(kk),
                self.asked_creates().take(kk),
                names0,
                self.given@,
                self.asked_names()[kk],
                self.asked_creates()[kk],
                Some(obj),
                self.names@,
            );
            assert(self.asked_names().take(kk + 1) =~= self.asked_names().take(kk).push(self.asked_names()[kk]));
            assert(self.asked_creates().take(kk + 1) =~= self.asked_creates().take(kk).push(
                self.asked_creates()[kk],
            ));
        }
        self.given.push(Some(obj));
    }

    /// Whether every client has been handled.
    pub fn is_done(&self) -> (res: bool)
        ensures
            res == (self.given@.len() >= self.asked@.len()),
    {
        self.given.len() >= self.asked.len()
    }
}

/// When every client has been handled, all of them got their views as
/// `resolved` says.
pub proof fn law_done_is_resolved(r: Resolution)
    requires
        r.wf(),
        r.given@.len() == r.asked@.len(),
    ensures
        resolved(r.start@, r.asked_names(), r.asked_creates(), r.names@, r.given@),
{
    assert(r.asked_names().take(r.given@.len() as int) =~= r.asked_names());
    assert(r.asked_creates().take(r.given@.len() as int) =~= r.asked_creates());
}

impl<C> NameResolver<C> {
    pub fn new() -> (res: NameResolver<C>)
        ensures
            res.names@ == Map::<Seq<char>, usize>::empty(),
            res.clients@ == Seq::<(String, bool, C)>::empty(),
    {
        NameResolver { names: Names::new(), clients: Vec::new() }
    }

    /// Queues `client` for the view that `name` stands for; an empty name
    /// asks for nothing.
    pub fn resolve(&mut self, name: String, client: C)
        ensures
            final(self).names@ == old(self).names@,
            final(self).clients@ == (if name@.len() == 0 {
                old(self).clients@
            } else {
                old(self).clients@.push((name, false, client))
            }),
    {
        if !name.as_str().is_empty() {
            self.clients.push((name, false, client));
        }
    }

    /// Queues `client` for the view that `name` stands for, to make it when
    /// the name stands for none; an empty name asks for nothing.
    pub fn resolve_or_create(&mut self, name: String, client: C)
        ensures
            final(self).names@ == old(self).names@,
            final(self).clients@ == (if name@.len() == 0 {
                old(self).clients@
            } else {
                old(self).clients@.push((name, true, client))
            }),
    {
        if !name.as_str().is_empty() {
            self.clients.push((name, true, client));
        }
    }

    /// Ends the queueing: the clients, in order, and the resolution that
    /// hands them their views one by one (`Resolution::next`, then
    /// `give_next` or, for a client that made its view, `made_next`).
    pub fn finish(self) -> (res: (Resolution, Vec<C>))
        ensures
            res.0.wf(),
            res.0.names@ == self.names@,
            res.0.start@ == self.names@,
            res.0.asked_names() == client_names(self.clients@),
            res.0.asked_creates() == client_creates(self.clients@),
            res.0.given@.len() == 0,
            res.1@ == self.clients@.map_values(|c: (String, bool, C)| c.2),
    {
        let NameResolver { names, clients } = self;
        let ghost all = clients@;
        let mut rest = clients;
        let mut asked: Vec<(String, bool)> = Vec::new();
        let mut payloads: Vec<C> = Vec::new();
        while rest.len() > 0
            invariant
                all == all.take(asked@.len() as int) + rest@,
                asked@.len() == payloads@.len(),
                asked@.len() <= all.len(),
                forall|i: int| 0 <= i < asked@.len() ==> (#[trigger] asked@[i]).0 == all[i].0 && asked@[i].1 == all[i].1,
                forall|i: int| 0 <= i < payloads@.len() ==> #[trigger] payloads@[i] == all[i].2,
            decreases rest.len(),
        {
            let ghost rest0 = rest@;
            let ghost k = asked@.len() as int;
            let (name, creates, client) = rest.remove(0);
            proof {
                assert(all[k] == rest0[0]);
                assert(all.take(k + 1) =~= all.take(k).push(all[k]));
                assert(all =~= all.take(k + 1) + rest@);
            }
            asked.push((name, creates));
            payloads.push(client);
        }
        let ghost start = names@;
        let res = Resolution { names, asked, given: Vec::new(), start: Ghost(start) };
        proof {
            assert(asked@.len() == all.len());
            assert(res.asked_names() =~= client_names(all));
            assert(res.asked_creates() =~= client_creates(all));
            assert(payloads@ =~= all.map_values(|c: (String, bool, C)| c.2));
            assert(res.asked_names().take(0) =~= Seq::<Seq<char>>::empty());
            assert(res.asked_creates().take(0) =~= Seq::<bool>::empty());
        }
        (res, payloads)
    }
}

} // verus!
