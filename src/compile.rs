use vstd::prelude::*;

verus! {

/// What a walk of the source tree found at one place.
pub enum EntryKind {
    File,
    Directory,
    Other,
    Unreadable,
}

impl EntryKind {
    pub fn is_file(&self) -> (r: bool)
        ensures
            r == (*self is File),
    {
        match self {
            EntryKind::File => true,
            _ => false,
        }
    }
}

/// One entry of a walk of the source tree, in walk order. `name` is the
/// entry's base name, absent where it is not valid text.
pub struct SourceEntry {
    pub path: String,
    pub name: Option<String>,
    pub kind: EntryKind,
}

/// The compiled text of one source file, under the file's base name.
pub struct CompiledAsset {
    pub name: String,
    pub css: String,
}

/// The file on which a compile pass stopped, and what the compiler said.
pub struct CompileFailure {
    pub file_name: String,
    pub diagnostic: String,
}

/// Compiled texts as (base name, text) pairs, in order of first appearance.
pub type Assets = Seq<(Seq<char>, Seq<char>)>;

/// What compiling one file gave: its text, or the compiler's diagnostic.
pub type Outcome = Result<Seq<char>, Seq<char>>;

/// The state of a compile pass: the texts so far, and the failure that
/// stopped it, if one did.
pub type PassState = (Assets, Option<(Seq<char>, Seq<char>)>);

/// An entry that a compile pass compiles: a regular file with a base name.
pub open spec fn is_source(e: SourceEntry) -> bool {
    e.kind is File && e.name is Some
}

pub open spec fn base_name(e: SourceEntry) -> Seq<char> {
    e.name->Some_0@
}

pub open spec fn outcome_view(o: Result<String, String>) -> Outcome {
    match o {
        Ok(css) => Ok(css@),
        Err(d) => Err(d@),
    }
}

/// `assets` with `css` stored under `name`: the pair of that name is
/// replaced in place, or a new pair goes last.
pub open spec fn upsert(assets: Assets, name: Seq<char>, css: Seq<char>) -> Assets
    decreases assets.len(),
{
    if assets.len() == 0 {
        seq![(name, css)]
    } else if assets[0].0 == name {
        assets.update(0, (name, css))
    } else {
        seq![assets[0]] + upsert(assets.drop_first(), name, css)
    }
}

/// One compiled file taken into a pass. A pass that has failed takes
/// nothing more; a failure stops it.
pub open spec fn record_outcome(state: PassState, name: Seq<char>, outcome: Outcome) -> PassState {
    if state.1 is Some {
        state
    } else {
        match outcome {
            Ok(css) => (upsert(state.0, name, css), None),
            Err(d) => (state.0, Some((name, d))),
        }
    }
}

/// The state of a pass over the first `n` entries, where `outcomes[k]` is
/// what compiling `entries[k]` gives.
pub open spec fn pass_upto(entries: Seq<SourceEntry>, outcomes: Seq<Outcome>, n: int) -> PassState
    decreases n,
{
    if n <= 0 {
        (seq![], None)
    } else {
        let prev = pass_upto(entries, outcomes, n - 1);
        if is_source(entries[n - 1]) {
            record_outcome(prev, base_name(entries[n - 1]), outcomes[n - 1])
        } else {
            prev
        }
    }
}

/// The state after a pass over all of `entries`.
pub open spec fn pass_over(entries: Seq<SourceEntry>, outcomes: Seq<Outcome>) -> PassState {
    pass_upto(entries, outcomes, entries.len() as int)
}

/// No base name is held twice.
pub open spec fn names_unique(assets: Assets) -> bool {
    forall|i: int, j: int| 0 <= i < j < assets.len() ==> assets[i].0 != assets[j].0
}

pub open spec fn holds_name(assets: Assets, name: Seq<char>) -> bool {
    exists|i: int| 0 <= i < assets.len() && assets[i].0 == name
}

pub open spec fn asset_view(a: CompiledAsset) -> (Seq<char>, Seq<char>) {
    (a.name@, a.css@)
}

/// The pairs that a list of compiled assets holds.
pub open spec fn assets_of(v: Seq<CompiledAsset>) -> Assets {
    v.map_values(|a: CompiledAsset| asset_view(a))
}

pub open spec fn failure_view(f: Option<CompileFailure>) -> Option<(Seq<char>, Seq<char>)> {
    match f {
        Some(f) => Some((f.file_name@, f.diagnostic@)),
        None => None,
    }
}

proof fn lemma_upsert_at(assets: Assets, k: int, name: Seq<char>, css: Seq<char>)
    requires
        0 <= k < assets.len(),
        assets[k].0 == name,
        forall|j: int| 0 <= j < k ==> assets[j].0 != name,
    ensures
        upsert(assets, name, css) == assets.update(k, (name, css)),
    decreases assets.len(),
{
    if k > 0 {
        lemma_upsert_at(assets.drop_first(), k - 1, name, css);
        assert(upsert(assets, name, css) =~= assets.update(k, (name, css)));
    }
}

proof fn lemma_upsert_absent(assets: Assets, name: Seq<char>, css: Seq<char>)
    requires
        !holds_name(assets, name),
    ensures
        upsert(assets, name, css) == assets.push((name, css)),
    decreases assets.len(),
{
    if assets.len() > 0 {
        assert(assets[0].0 != name);
        let rest = assets.drop_first();
        assert forall|i: int| 0 <= i < rest.len() implies rest[i].0 != name by {
            assert(rest[i] == assets[i + 1]);
        }
        lemma_upsert_absent(rest, name, css);
        assert(upsert(assets, name, css) =~= assets.push((name, css)));
    }
}

/// Storing a text keeps the names unique, holds `name` with `css`, and
/// changes no other pair.
pub proof fn lemma_upsert_facts(assets: Assets, name: Seq<char>, css: Seq<char>)
    requires
        names_unique(assets),
    ensures
        names_unique(upsert(assets, name, css)),
        holds_name(upsert(assets, name, css), name),
        forall|m: Seq<char>|
            holds_name(upsert(assets, name, css), m) <==> (m == name || holds_name(assets, m)),
        forall|i: int|
            0 <= i < upsert(assets, name, css).len() && upsert(assets, name, css)[i].0 == name
                ==> upsert(assets, name, css)[i].1 == css,
        forall|i: int|
            0 <= i < assets.len() && assets[i].0 != name ==> upsert(assets, name, css)[i]
                == assets[i],
        forall|i: int|
            0 <= i < upsert(assets, name, css).len() ==> (upsert(assets, name, css)[i].0 == name
                || (i < assets.len() && upsert(assets, name, css)[i] == assets[i])),
{
    if holds_name(assets, name) {
        let k = choose|k: int| 0 <= k < assets.len() && assets[k].0 == name;
        lemma_upsert_at(assets, k, name, css);
        let r = assets.update(k, (name, css));
        assert(r[k].0 == name);
        assert forall|m: Seq<char>| holds_name(r, m) <==> (m == name || holds_name(assets, m)) by {
            if holds_name(assets, m) {
                let i = choose|i: int| 0 <= i < assets.len() && assets[i].0 == m;
                assert(r[i].0 == m);
            }
            if holds_name(r, m) {
                let i = choose|i: int| 0 <= i < r.len() && r[i].0 == m;
                if i != k {
                    assert(assets[i].0 == m);
                }
            }
        }
    } else {
        lemma_upsert_absent(assets, name, css);
        let r = assets.push((name, css));
        assert(r[assets.len() as int].0 == name);
        assert forall|m: Seq<char>| holds_name(r, m) <==> (m == name || holds_name(assets, m)) by {
            if holds_name(assets, m) {
                let i = choose|i: int| 0 <= i < assets.len() && assets[i].0 == m;
                assert(r[i].0 == m);
            }
            if holds_name(r, m) {
                let i = choose|i: int| 0 <= i < r.len() && r[i].0 == m;
                if i < assets.len() {
                    assert(assets[i].0 == m);
                }
            }
        }
    }
}

/// A compile pass in progress: the texts compiled so far, keyed by base
/// name, and the failure that stopped the pass, if one did.
pub struct CompilePass {
    assets: Vec<CompiledAsset>,
    failure: Option<CompileFailure>,
}

impl CompilePass {
    pub closed spec fn state(&self) -> PassState {
        (assets_of(self.assets@), failure_view(self.failure))
    }

    /// A pass that has compiled nothing yet.
    pub fn new() -> (r: Self)
        ensures
            r.state() == (Seq::<(Seq<char>, Seq<char>)>::empty(), None::<(Seq<char>, Seq<char>)>),
    {
        let r = CompilePass { assets: Vec::new(), failure: None };
        assert(r.state().0 =~= Seq::<(Seq<char>, Seq<char>)>::empty());
        r
    }

    /// Whether a failure has stopped the pass.
    pub fn is_finished(&self) -> (r: bool)
        ensures
            r == self.state().1 is Some,
    {
        self.failure.is_some()
    }

    /// The texts compiled so far.
    pub fn assets(&self) -> (r: &Vec<CompiledAsset>)
        ensures
            assets_of(r@) == self.state().0,
    {
        &self.assets
    }

    /// The failure that stopped the pass, if one did.
    pub fn failure(&self) -> (r: &Option<CompileFailure>)
        ensures
            failure_view(*r) == self.state().1,
    {
        &self.failure
    }

    fn position_of(&self, name: &String) -> (r: Option<usize>)
        ensures
            match r {
                Some(k) => {
                    &&& k < self.state().0.len()
                    &&& self.state().0[k as int].0 == name@
                    &&& forall|j: int| 0 <= j < k ==> self.state().0[j].0 != name@
                },
                None => !holds_name(self.state().0, name@),
            },
    {
        let mut i: usize = 0;
        while i < self.assets.len()
            invariant
                i <= self.assets@.len(),
                forall|j: int| 0 <= j < i ==> self.state().0[j].0 != name@,
            decreases self.assets@.len() - i,
        {
            if self.assets[i].name == *name {
                return Some(i);
            }
            i = i + 1;
        }
        None
    }

    /// Takes into the pass what compiling the file `name` gave. A text is
    /// stored under `name`, replacing an earlier one of that name; a
    /// diagnostic stops the pass. A stopped pass is left as it is.
    pub fn record(&mut self, name: &str, outcome: Result<String, String>)
        ensures
            final(self).state() == record_outcome(old(self).state(), name@, outcome_view(outcome)),
    {
        if self.failure.is_some() {
            return;
        }
        let key = String::from_str(name);
        match outcome {
            Ok(css) => {
                let ghost before = self.state().0;
                match self.position_of(&key) {
                    Some(k) => {
                        proof {
                            lemma_upsert_at(before, k as int, name@, css@);
                        }
                        self.assets.set(k, CompiledAsset { name: key, css });
                    },
                    None => {
                        proof {
                            lemma_upsert_absent(before, name@, css@);
                        }
                        self.assets.push(CompiledAsset { name: key, css });
                    },
                }
                assert(self.state().0 =~= upsert(before, name@, outcome_view(outcome)->Ok_0));
            },
            Err(d) => {
                self.failure = Some(CompileFailure { file_name: key, diagnostic: d });
            },
        }
    }
}

/// A pass whose `outcomes` differ only beyond `n` agrees up to `n`.
pub(crate) proof fn lemma_pass_prefix(
    entries: Seq<SourceEntry>,
    a: Seq<Outcome>,
    b: Seq<Outcome>,
    n: int,
)
    requires
        forall|k: int| 0 <= k < n ==> a[k] == b[k],
    ensures
        pass_upto(entries, a, n) == pass_upto(entries, b, n),
    decreases n,
{
    if n > 0 {
        lemma_pass_prefix(entries, a, b, n - 1);
    }
}

/// The pass over `entries` in order, where `outcomes[k]` is what compiling
/// `entries[k]` gave; it ends at the shorter of the two.
pub fn compile_outcomes(entries: &Vec<SourceEntry>, outcomes: &Vec<Result<String, String>>) -> (r:
    CompilePass)
    ensures
        r.state() == pass_upto(
            entries@,
            outcomes@.map_values(|o: Result<String, String>| outcome_view(o)),
            if entries.len() <= outcomes.len() {
                entries.len() as int
            } else {
                outcomes.len() as int
            },
        ),
{
    let ghost outs = outcomes@.map_values(|o: Result<String, String>| outcome_view(o));
    let mut pass = CompilePass::new();
    let mut i: usize = 0;
    while i < entries.len() && i < outcomes.len()
        invariant
            i <= entries.len(),
            i <= outcomes.len(),
            outs == outcomes@.map_values(|o: Result<String, String>| outcome_view(o)),
            pass.state() == pass_upto(entries@, outs, i as int),
        decreases entries.len() - i,
    {
        let e = &entries[i];
        if e.kind.is_file() {
            match &e.name {
                Some(name) => {
                    let outcome = match &outcomes[i] {
                        Ok(css) => Ok(css.clone()),
                        Err(d) => Err(d.clone()),
                    };
                    pass.record(name.as_str(), outcome);
                },
                None => {},
            }
        }
        i = i + 1;
    }
    pass
}

/// The base names of the source files among the first `n` entries.
pub open spec fn source_names(entries: Seq<SourceEntry>, n: int) -> Set<Seq<char>> {
    Set::new(
        |m: Seq<char>|
            exists|k: int| 0 <= k < n && is_source(entries[k]) && base_name(entries[k]) == m,
    )
}

/// Every source file among the first `n` entries compiles.
pub open spec fn all_compiled(entries: Seq<SourceEntry>, outcomes: Seq<Outcome>, n: int) -> bool {
    forall|k: int| 0 <= k < n && is_source(entries[k]) ==> outcomes[k] is Ok
}

/// A pass never holds a base name twice.
pub proof fn lemma_pass_names_unique(entries: Seq<SourceEntry>, outcomes: Seq<Outcome>, n: int)
    ensures
        names_unique(pass_upto(entries, outcomes, n).0),
    decreases n,
{
    if n > 0 {
        lemma_pass_names_unique(entries, outcomes, n - 1);
        let prev = pass_upto(entries, outcomes, n - 1);
        if is_source(entries[n - 1]) && prev.1 is None && outcomes[n - 1] is Ok {
            lemma_upsert_facts(prev.0, base_name(entries[n - 1]), outcomes[n - 1]->Ok_0);
        }
    }
}

/// While every source file compiles, a pass holds exactly the base names of
/// the source files it went over, and has not failed.
pub proof fn lemma_pass_names_complete(entries: Seq<SourceEntry>, outcomes: Seq<Outcome>, n: int)
    requires
        0 <= n <= entries.len(),
        all_compiled(entries, outcomes, n),
    ensures
        pass_upto(entries, outcomes, n).1 is None,
        forall|m: Seq<char>|
            holds_name(pass_upto(entries, outcomes, n).0, m) <==> source_names(entries, n).contains(m),
    decreases n,
{
    if n > 0 {
        lemma_pass_names_complete(entries, outcomes, n - 1);
        lemma_pass_names_unique(entries, outcomes, n - 1);
        let prev = pass_upto(entries, outcomes, n - 1);
        let cur = pass_upto(entries, outcomes, n);
        if is_source(entries[n - 1]) {
            lemma_upsert_facts(prev.0, base_name(entries[n - 1]), outcomes[n - 1]->Ok_0);
        }
        assert forall|m: Seq<char>| holds_name(cur.0, m) <==> source_names(entries, n).contains(m) by {
            if source_names(entries, n).contains(m) {
                let k = choose|k: int|
                    0 <= k < n && is_source(entries[k]) && base_name(entries[k]) == m;
                if k < n - 1 {
                    assert(source_names(entries, n - 1).contains(m));
                }
            }
            if source_names(entries, n - 1).contains(m) {
                let k = choose|k: int|
                    0 <= k < n - 1 && is_source(entries[k]) && base_name(entries[k]) == m;
                assert(source_names(entries, n).contains(m));
            }
            if is_source(entries[n - 1]) && m == base_name(entries[n - 1]) {
                assert(source_names(entries, n).contains(m));
            }
        }
    }
}

proof fn lemma_last_text_kept(
    entries: Seq<SourceEntry>,
    outcomes: Seq<Outcome>,
    j: int,
    n: int,
)
    requires
        0 <= j < n <= entries.len(),
        outcomes.len() == entries.len(),
        is_source(entries[j]),
        outcomes[j] is Ok,
        pass_upto(entries, outcomes, j).1 is None,
        forall|k: int|
            j < k < n && is_source(entries[k]) ==> base_name(entries[k]) != base_name(entries[j]),
    ensures
        holds_name(pass_upto(entries, outcomes, n).0, base_name(entries[j])),
        forall|t: int|
            0 <= t < pass_upto(entries, outcomes, n).0.len() && pass_upto(entries, outcomes, n).0[t].0
                == base_name(entries[j]) ==> pass_upto(entries, outcomes, n).0[t].1
                == outcomes[j]->Ok_0,
    decreases n,
{
    let x = base_name(entries[j]);
    let prev = pass_upto(entries, outcomes, n - 1);
    lemma_pass_names_unique(entries, outcomes, n - 1);
    if n - 1 == j {
        lemma_upsert_facts(prev.0, x, outcomes[j]->Ok_0);
    } else {
        lemma_last_text_kept(entries, outcomes, j, n - 1);
        if is_source(entries[n - 1]) && prev.1 is None && outcomes[n - 1] is Ok {
            let name = base_name(entries[n - 1]);
            assert(name != x);
            lemma_upsert_facts(prev.0, name, outcomes[n - 1]->Ok_0);
            let cur = upsert(prev.0, name, outcomes[n - 1]->Ok_0);
            let i = choose|i: int| 0 <= i < prev.0.len() && prev.0[i].0 == x;
            assert(cur[i] == prev.0[i]);
            assert forall|t: int| 0 <= t < cur.len() && cur[t].0 == x implies cur[t].1
                == outcomes[j]->Ok_0 by {
                assert(t < prev.0.len() && cur[t] == prev.0[t]);
            }
        }
    }
}

/// Where every source file up to `entries[j]` compiles and no later source
/// file shares its base name, the pass holds that name once, with the text
/// of `entries[j]`.
pub proof fn lemma_text_of_last_file(entries: Seq<SourceEntry>, outcomes: Seq<Outcome>, j: int)
    requires
        0 <= j < entries.len(),
        outcomes.len() == entries.len(),
        is_source(entries[j]),
        all_compiled(entries, outcomes, j + 1),
        forall|k: int|
            j < k < entries.len() && is_source(entries[k]) ==> base_name(entries[k]) != base_name(
                entries[j],
            ),
    ensures
        names_unique(pass_over(entries, outcomes).0),
        holds_name(pass_over(entries, outcomes).0, base_name(entries[j])),
        forall|t: int|
            0 <= t < pass_over(entries, outcomes).0.len() && pass_over(entries, outcomes).0[t].0
                == base_name(entries[j]) ==> pass_over(entries, outcomes).0[t].1
                == outcomes[j]->Ok_0,
{
    lemma_pass_names_unique(entries, outcomes, entries.len() as int);
    lemma_pass_names_complete(entries, outcomes, j);
    lemma_last_text_kept(entries, outcomes, j, entries.len() as int);
}

/// Source files that share a base name leave one entry for it, which holds
/// the text of the last of them, where none failed before it.
pub proof fn lemma_shared_base_name_last_wins(
    entries: Seq<SourceEntry>,
    outcomes: Seq<Outcome>,
    i: int,
    j: int,
)
    requires
        0 <= i < j < entries.len(),
        outcomes.len() == entries.len(),
        is_source(entries[i]),
        is_source(entries[j]),
        base_name(entries[i]) == base_name(entries[j]),
        all_compiled(entries, outcomes, j + 1),
        forall|k: int|
            j < k < entries.len() && is_source(entries[k]) ==> base_name(entries[k]) != base_name(
                entries[j],
            ),
    ensures
        names_unique(pass_over(entries, outcomes).0),
        holds_name(pass_over(entries, outcomes).0, base_name(entries[j])),
        forall|t: int|
            0 <= t < pass_over(entries, outcomes).0.len() && pass_over(entries, outcomes).0[t].0
                == base_name(entries[j]) ==> pass_over(entries, outcomes).0[t].1
                == outcomes[j]->Ok_0,
{
    lemma_text_of_last_file(entries, outcomes, j);
}

} // verus!
