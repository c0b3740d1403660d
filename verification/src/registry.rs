//! The container registry: owns every live container, resolves titles,
//! spawns new containers under fresh derived titles, and drains pending
//! transformation results once per frame, after iteration over the
//! existing containers completes.

use vstd::prelude::*;
use vstd::string::StringExecFns;
use crate::container::DataFrameContainer;
use crate::join::DataFrameJoin;
use crate::error::EngineError;
use crate::table::{ColumnModel, Table, table_height, table_wf};

verus! {

/// The title-to-container registry. Containers are never removed; in-place
/// replacement rebinds a container's table without touching its title or
/// slot.
#[derive(Debug)]
pub struct Registry {
    pub containers: Vec<DataFrameContainer>,
}

impl Registry {
    /// The registry invariant: every container is well-formed and the
    /// titles are pairwise distinct.
    pub open spec fn wf(self) -> bool {
        &&& forall|i: int| 0 <= i < self.containers@.len() ==> (#[trigger] self.containers@[i]).wf()
        &&& forall|i: int, j: int| 0 <= i < j < self.containers@.len()
            ==> self.containers@[i].title@ != self.containers@[j].title@
    }

    /// The live titles, in display order.
    pub open spec fn spec_titles(self) -> Seq<Seq<char>> {
        self.containers@.map_values(|c: DataFrameContainer| c.title@)
    }

    pub open spec fn has_title(self, name: Seq<char>) -> bool {
        exists|i: int| 0 <= i < self.containers@.len()
            && (#[trigger] self.containers@[i].title@) == name
    }

    /// An empty registry.
    pub fn new() -> (r: Registry)
        ensures
            r.wf(),
            r.containers@.len() == 0,
    {
        Registry { containers: Vec::new() }
    }

    /// The slot a title resolves to, if any: the first so titled, in
    /// display order (a well-formed registry has at most one).
    pub fn find_title(&self, title: &str) -> (r: Option<usize>)
        ensures
            match r {
                Some(i) => i < self.containers@.len()
                    && self.containers@[i as int].title@ == title@
                    && forall|q: int| 0 <= q < i as int
                        ==> (#[trigger] self.containers@[q].title@) != title@,
                None => !self.has_title(title@),
            },
    {
        let key: String = title.to_owned();
        let mut i: usize = 0;
        while i < self.containers.len()
            invariant
                i <= self.containers@.len(),
                key@ == title@,
                forall|q: int| 0 <= q < i ==> (#[trigger] self.containers@[q].title@) != title@,
            decreases self.containers@.len() - i,
        {
            if self.containers[i].title == key {
                return Some(i);
            }
            i += 1;
        }
        None
    }

    /// Resolves a title to its container (the join engine's lookup): the
    /// first so titled, in display order; absent titles resolve to nothing.
    pub fn resolve(&self, title: &str) -> (r: Option<&DataFrameContainer>)
        ensures
            match r {
                Some(c) => exists|i: int|
                    {
                        &&& 0 <= i < self.containers@.len()
                        &&& *c == (#[trigger] self.containers@[i])
                        &&& c.title@ == title@
                        &&& forall|q: int| 0 <= q < i
                            ==> (#[trigger] self.containers@[q].title@) != title@
                    },
                None => !self.has_title(title@),
            },
    {
        match self.find_title(title) {
            Some(i) => Some(&self.containers[i]),
            None => None,
        }
    }

    /// All live titles, for join-target pickers.
    pub fn list_titles(&self) -> (r: Vec<String>)
        ensures
            r@.len() == self.containers@.len(),
            forall|i: int| 0 <= i < r@.len() ==> (#[trigger] r@[i])@ == self.spec_titles()[i],
    {
        let mut out: Vec<String> = Vec::new();
        let mut i: usize = 0;
        while i < self.containers.len()
            invariant
                i <= self.containers@.len(),
                out@.len() == i,
                forall|q: int| 0 <= q < i ==> (#[trigger] out@[q])@ == self.containers@[q].title@,
            decreases self.containers@.len() - i,
        {
            out.push(self.containers[i].title.clone());
            i += 1;
        }
        out
    }

    /// The cached column names of a titled container, for right-hand key
    /// pickers; refreshed by every table replacement, so no table walk is
    /// needed here.
    pub fn column_names_of(&self, title: &str) -> (r: Option<Vec<String>>)
        requires
            self.wf(),
        ensures
            match r {
                Some(names) => exists|i: int|
                    {
                        &&& 0 <= i < self.containers@.len()
                        &&& (#[trigger] self.containers@[i]).title@ == title@
                        &&& names@.len() == self.containers@[i].data@.len()
                        &&& forall|q: int| 0 <= q < names@.len()
                            ==> (#[trigger] names@[q])@ == self.containers@[i].data@[q].name
                    },
                None => !self.has_title(title@),
            },
    {
        match self.find_title(title) {
            Some(i) => {
                let c = &self.containers[i];
                let mut out: Vec<String> = Vec::new();
                let mut q: usize = 0;
                while q < c.columns.len()
                    invariant
                        q <= c.columns@.len(),
                        out@.len() == q,
                        forall|w: int| 0 <= w < q ==> (#[trigger] out@[w])@ == c.columns@[w]@,
                    decreases c.columns@.len() - q,
                {
                    out.push(c.columns[q].clone());
                    q += 1;
                }
                proof {
                    assert(self.containers@[i as int].wf());
                }
                Some(out)
            }
            None => None,
        }
    }

    /// Replaces a titled container's table in place: the new table is
    /// bound, the cached shape and column names are re-derived, and the
    /// cached summary is invalidated; the title and slot are untouched.
    /// Returns whether the title was found (an absent title changes
    /// nothing).
    pub fn replace_in_place(&mut self, title: &str, table: Table) -> (r: bool)
        requires
            old(self).wf(),
            table_wf(table@),
        ensures
            final(self).wf(),
            final(self).containers@.len() == old(self).containers@.len(),
            forall|i: int| 0 <= i < final(self).containers@.len()
                ==> (#[trigger] final(self).containers@[i].title@)
                    == old(self).containers@[i].title@,
            r == old(self).has_title(title@),
            r ==> exists|i: int|
                {
                    &&& 0 <= i < final(self).containers@.len()
                    &&& (#[trigger] final(self).containers@[i]).title@ == title@
                    &&& final(self).containers@[i].data@ == table@
                    &&& final(self).containers@[i].summary.summary_data is None
                    &&& forall|j: int| 0 <= j < final(self).containers@.len() && j != i
                        ==> final(self).containers@[j] == old(self).containers@[j]
                },
            !r ==> *final(self) == *old(self),
    {
        match self.find_title(title) {
            Some(i) => {
                let mut c = self.containers.remove(i);
                c.data = table;
                c.shape = c.data.shape();
                c.columns = c.data.column_names();
                c.summary.summary_data = None;
                self.containers.insert(i, c);
                proof {
                    assert(final(self).containers@[i as int].title@ == title@);
                    assert(forall|j: int| 0 <= j < final(self).containers@.len() && j != i
                        ==> final(self).containers@[j] == old(self).containers@[j]);
                }
                true
            }
            None => false,
        }
    }
}

/// Decimal digit as a character.
pub open spec fn digit_char(d: int) -> char {
    if d == 0 {
        '0'
    } else if d == 1 {
        '1'
    } else if d == 2 {
        '2'
    } else if d == 3 {
        '3'
    } else if d == 4 {
        '4'
    } else if d == 5 {
        '5'
    } else if d == 6 {
        '6'
    } else if d == 7 {
        '7'
    } else if d == 8 {
        '8'
    } else {
        '9'
    }
}

/// The decimal form of a number, most significant digit first.
pub open spec fn dec_digits(n: nat) -> Seq<char>
    decreases n,
{
    if n < 10 {
        seq![digit_char(n as int)]
    } else {
        dec_digits(n / 10).push(digit_char((n % 10) as int))
    }
}

fn digit_str(d: u64) -> (r: &'static str)
    requires
        d < 10,
    ensures
        r@ == seq![digit_char(d as int)],
{
    let r: &'static str = match d {
        0 => "0",
        1 => "1",
        2 => "2",
        3 => "3",
        4 => "4",
        5 => "5",
        6 => "6",
        7 => "7",
        8 => "8",
        _ => "9",
    };
    proof {
        reveal_strlit("0");
        reveal_strlit("1");
        reveal_strlit("2");
        reveal_strlit("3");
        reveal_strlit("4");
        reveal_strlit("5");
        reveal_strlit("6");
        reveal_strlit("7");
        reveal_strlit("8");
        reveal_strlit("9");
        assert(r@ =~= seq![digit_char(d as int)]);
    }
    r
}

/// The decimal text of a number.
fn u64_string(n: u64) -> (r: String)
    ensures
        r@ == dec_digits(n as nat),
{
    let mut digits: Vec<u64> = Vec::new();
    let mut m = n;
    while m >= 10
        invariant
            dec_digits(n as nat) =~= dec_digits(m as nat) + Seq::new(
                digits@.len(),
                |i: int| digit_char(digits@[digits@.len() - 1 - i] as int),
            ),
            forall|q: int| 0 <= q < digits@.len() ==> (#[trigger] digits@[q]) < 10,
        decreases m,
    {
        let ghost low = Seq::new(digits@.len(), |i: int| digit_char(digits@[digits@.len() - 1 - i] as int));
        digits.push(m % 10);
        proof {
            let low2 = Seq::new(digits@.len(), |i: int| digit_char(digits@[digits@.len() - 1 - i] as int));
            assert(low2 =~= seq![digit_char((m % 10) as int)] + low);
            assert(dec_digits(m as nat) == dec_digits((m as nat) / 10).push(digit_char(((m as nat) % 10) as int)));
            assert(dec_digits(m as nat) + low =~= dec_digits((m / 10) as nat) + low2);
        }
        m = m / 10;
    }
    let ghost low = Seq::new(digits@.len(), |i: int| digit_char(digits@[digits@.len() - 1 - i] as int));
    digits.push(m);
    proof {
        let low2 = Seq::new(digits@.len(), |i: int| digit_char(digits@[digits@.len() - 1 - i] as int));
        assert(low2 =~= seq![digit_char(m as int)] + low);
        assert(dec_digits(m as nat) == seq![digit_char(m as int)]);
        assert(dec_digits(n as nat) =~= low2);
    }
    let mut s = String::new();
    let mut j: usize = digits.len();
    while j > 0
        invariant
            j <= digits@.len(),
            forall|q: int| 0 <= q < digits@.len() ==> (#[trigger] digits@[q]) < 10,
            dec_digits(n as nat) == Seq::new(
                digits@.len(),
                |i: int| digit_char(digits@[digits@.len() - 1 - i] as int),
            ),
            s@ =~= dec_digits(n as nat).take(digits@.len() - j),
        decreases j,
    {
        j -= 1;
        s.append(digit_str(digits[j]));
        proof {
            assert(dec_digits(n as nat)[digits@.len() - 1 - j as int]
                == digit_char(digits@[j as int] as int));
            assert(s@ =~= dec_digits(n as nat).take(digits@.len() - j as int));
        }
    }
    proof {
        assert(dec_digits(n as nat).take(digits@.len() as int) =~= dec_digits(n as nat));
    }
    s
}

/// The title a spawn under this hint derives when the registry holds `n`
/// containers: the hint, an underscore, the count, and the underscores a
/// collision forced.
pub open spec fn spawned_title(hint: Seq<char>, n: int, pad: Seq<char>) -> Seq<char> {
    hint + "_"@ + dec_digits(n as nat) + pad
}

/// A (possibly empty) run of collision-resolving underscores.
pub open spec fn all_underscores(pad: Seq<char>) -> bool {
    forall|q: int| 0 <= q < pad.len() ==> #[trigger] pad[q] == '_'
}

impl Registry {
    /// The longest live title's length (0 when empty).
    fn max_title_len(&self) -> (r: usize)
        ensures
            forall|i: int| 0 <= i < self.containers@.len()
                ==> (#[trigger] self.containers@[i].title@).len() <= r,
    {
        let mut best: usize = 0;
        let mut i: usize = 0;
        while i < self.containers.len()
            invariant
                i <= self.containers@.len(),
                forall|q: int| 0 <= q < i
                    ==> (#[trigger] self.containers@[q].title@).len() <= best,
            decreases self.containers@.len() - i,
        {
            let l = self.containers[i].title.as_str().unicode_len();
            if l > best {
                best = l;
            }
            i += 1;
        }
        best
    }

    /// Whether some live container carries exactly this title.
    fn title_taken(&self, title: &String) -> (r: bool)
        ensures
            r == self.has_title(title@),
    {
        let mut i: usize = 0;
        while i < self.containers.len()
            invariant
                i <= self.containers@.len(),
                forall|q: int| 0 <= q < i ==> (#[trigger] self.containers@[q].title@) != title@,
            decreases self.containers@.len() - i,
        {
            if self.containers[i].title == *title {
                return true;
            }
            i += 1;
        }
        false
    }

    /// Spawns a new container around a transformation result. The title is
    /// the operation hint, an underscore, and the current container count;
    /// a collision with a live title is resolved by appending underscores
    /// until the title is fresh — uniqueness is guaranteed, so the
    /// registry invariant is preserved unconditionally.
    pub fn spawn(&mut self, hint: &str, table: Table) -> (title: String)
        requires
            old(self).wf(),
            table_wf(table@),
        ensures
            final(self).wf(),
            final(self).containers@.len() == old(self).containers@.len() + 1,
            forall|i: int| 0 <= i < old(self).containers@.len()
                ==> (#[trigger] final(self).containers@[i]) == old(self).containers@[i],
            !old(self).has_title(title@),
            final(self).containers@.last().title@ == title@,
            final(self).containers@.last().data@ == table@,
            final(self).containers@.last().wf(),
            exists|pad: Seq<char>|
                {
                    &&& title@ == #[trigger] spawned_title(hint@, old(self).containers@.len() as int, pad)
                    &&& all_underscores(pad)
                },
    {
        let mut title: String = hint.to_owned();
        title.append("_");
        let num = u64_string(self.containers.len() as u64);
        title.append(num.as_str());
        let ghost base = title@;
        proof {
            assert(base == hint@ + "_"@ + dec_digits(old(self).containers@.len() as nat));
            assert(trivial(Seq::<char>::empty()));
            assert(title@ =~= base + Seq::<char>::empty());
        }
        let maxlen = self.max_title_len();
        proof {
            reveal_strlit("_");
            assert("_"@.len() == 1);
        }
        while self.title_taken(&title)
            invariant
                self == old(self),
                forall|i: int| 0 <= i < self.containers@.len()
                    ==> (#[trigger] self.containers@[i].title@).len() <= maxlen,
                exists|pad: Seq<char>|
                    {
                        &&& #[trigger] trivial(pad)
                        &&& title@ == base + pad
                        &&& forall|q: int| 0 <= q < pad.len() ==> #[trigger] pad[q] == '_'
                    },
                "_"@.len() == 1,
            ensures
                self == old(self),
                !self.has_title(title@),
                exists|pad: Seq<char>|
                    {
                        &&& #[trigger] trivial(pad)
                        &&& title@ == base + pad
                        &&& forall|q: int| 0 <= q < pad.len() ==> #[trigger] pad[q] == '_'
                    },
            decreases maxlen + 1 - title@.len(),
        {
            proof {
                let i = choose|i: int|
                    0 <= i < self.containers@.len() && self.containers@[i].title@ == title@;
                assert(title@.len() <= maxlen);
            }
            let ghost pad = choose|pad: Seq<char>|
                trivial(pad) && title@ == base + pad && forall|q: int|
                    0 <= q < pad.len() ==> #[trigger] pad[q] == '_';
            title.append("_");
            proof {
                reveal_strlit("_");
                let pad2 = pad + "_"@;
                assert(trivial(pad2));
                assert(title@ =~= base + pad2);
                assert(forall|q: int| 0 <= q < pad2.len() ==> #[trigger] pad2[q] == '_') by {
                    assert("_"@[0] == '_');
                    assert(forall|q: int| 0 <= q < pad2.len() && q < pad.len()
                        ==> #[trigger] pad2[q] == pad[q]);
                    assert(forall|q: int| pad.len() <= q < pad2.len()
                        ==> #[trigger] pad2[q] == "_"@[q - pad.len()]);
                }
            }
        }
        proof {
            let pad = choose|pad: Seq<char>|
                trivial(pad) && title@ == base + pad && forall|q: int|
                    0 <= q < pad.len() ==> #[trigger] pad[q] == '_';
            assert(title@ == spawned_title(hint@, old(self).containers@.len() as int, pad));
            assert(all_underscores(pad));
        }
        let c = DataFrameContainer::new(table, title.as_str());
        self.containers.push(c);
        proof {
            assert(forall|i: int| 0 <= i < old(self).containers@.len()
                ==> (#[trigger] final(self).containers@[i]) == old(self).containers@[i]);
            assert(final(self).wf()) by {
                assert(forall|i: int, j: int|
                    0 <= i < j < final(self).containers@.len()
                        ==> final(self).containers@[i].title@
                        != final(self).containers@[j].title@) by {
                    assert(forall|i: int| 0 <= i < old(self).containers@.len()
                        ==> (#[trigger] old(self).containers@[i].title@) != title@);
                }
            }
        }
        title
    }
}

fn prefixed(prefix: &str, title: &String) -> (r: String)
    ensures
        r@ == prefix@ + title@,
{
    let mut r: String = prefix.to_owned();
    r.append(title.as_str());
    r
}

/// The titles and deep-copied tables of every live container: the snapshot
/// join targets are resolved against while the frame's iteration runs.
fn snapshot_tables(containers: &Vec<DataFrameContainer>) -> (r: Vec<(String, Table)>)
    requires
        forall|i: int| 0 <= i < containers@.len() ==> (#[trigger] containers@[i]).wf(),
    ensures
        r@.len() == containers@.len(),
        forall|i: int| 0 <= i < r@.len() ==> {
            &&& (#[trigger] r@[i]).0@ == containers@[i].title@
            &&& r@[i].1@ == containers@[i].data@
            &&& table_wf(r@[i].1@)
        },
{
    let mut out: Vec<(String, Table)> = Vec::new();
    let mut i: usize = 0;
    while i < containers.len()
        invariant
            i <= containers@.len(),
            forall|q: int| 0 <= q < containers@.len() ==> (#[trigger] containers@[q]).wf(),
            out@.len() == i,
            forall|q: int| 0 <= q < i ==> {
                &&& (#[trigger] out@[q]).0@ == containers@[q].title@
                &&& out@[q].1@ == containers@[q].data@
                &&& table_wf(out@[q].1@)
            },
        decreases containers@.len() - i,
    {
        out.push((containers[i].title.clone(), containers[i].data.duplicate()));
        i += 1;
    }
    out
}

fn find_snapshot<'a>(snap: &'a Vec<(String, Table)>, title: &String) -> (r: Option<&'a Table>)
    requires
        forall|i: int| 0 <= i < snap@.len() ==> table_wf((#[trigger] snap@[i]).1@),
    ensures
        match r {
            Some(t) => table_wf(t@) && exists|i: int|
                {
                    &&& 0 <= i < snap@.len()
                    &&& (#[trigger] snap@[i]).0@ == title@
                    &&& t@ == snap@[i].1@
                },
            None => forall|i: int| 0 <= i < snap@.len() ==> (#[trigger] snap@[i]).0@ != title@,
        },
{
    let mut i: usize = 0;
    while i < snap.len()
        invariant
            i <= snap@.len(),
            forall|q: int| 0 <= q < snap@.len() ==> table_wf((#[trigger] snap@[q]).1@),
            forall|q: int| 0 <= q < i ==> (#[trigger] snap@[q]).0@ != title@,
        decreases snap@.len() - i,
    {
        if snap[i].0 == *title {
            return Some(&snap[i].1);
        }
        i += 1;
    }
    None
}

/// The table a container holds once its staged filter result is drained:
/// an in-place result replaces the table, anything else leaves it.
pub open spec fn drained_data(c: DataFrameContainer) -> Seq<ColumnModel> {
    match c.filter.filtered_data {
        Some(t) => if c.filter.inplace {
            t@
        } else {
            c.data@
        },
        None => c.data@,
    }
}

/// A set join trigger naming a live target: the frame fires it.
pub open spec fn pending_join_fires(r: Registry, c: DataFrameContainer) -> bool {
    &&& c.join.join
    &&& c.join.df_selection@.len() > 0
    &&& r.has_title(c.join.df_selection@)
}

/// ... and the join of the container's (drained) table against the
/// target's pre-frame table is owed a result.
#[verifier::opaque]
pub open spec fn pending_join_succeeds(r: Registry, c: DataFrameContainer) -> bool {
    &&& pending_join_fires(r, c)
    &&& crate::container::join_succeeds(
        drained_data(c),
        r.spec_at_title(c.join.df_selection@).data@,
        c.join.left_on_selection@,
        c.join.right_on_selection@,
        c.join.how,
    )
}

/// The result a fired join owes: the join of the container's drained table
/// against its target's pre-frame table, under the container's key columns
/// and kind.
#[verifier::opaque]
pub open spec fn pending_join_result(r: Registry, c: DataFrameContainer, out: Seq<ColumnModel>) -> bool {
    crate::container::join_result_is(
        drained_data(c),
        r.spec_at_title(c.join.df_selection@).data@,
        c.join.left_on_selection@,
        c.join.right_on_selection@,
        c.join.how,
        out,
    )
}

/// How many containers one frame may spawn: at most one per staged
/// new-placement filter result, plus one per armed new-placement join.
pub open spec fn pending_spawn_bound(cs: Seq<DataFrameContainer>) -> int
    decreases cs.len(),
{
    if cs.len() == 0 {
        0
    } else {
        pending_spawn_bound(cs.drop_last()) + (if cs.last().filter.filtered_data is Some
            && !cs.last().filter.inplace {
            1int
        } else {
            0int
        }) + (if cs.last().join.join && !cs.last().join.inplace
            && cs.last().join.df_selection@.len() > 0 {
            1int
        } else {
            0int
        })
    }
}

impl Registry {
    /// One container's share of a frame: drains its staged filter result
    /// per the placement policy (in place, or held aside in `staged`), and
    /// fires its pending join trigger once against the pre-frame snapshot,
    /// landing an in-place result or holding a new-placement result aside.
    /// `reg` is the registry as the frame began.
    #[verifier::spinoff_prover]
    fn frame_step(c: &mut DataFrameContainer, snap: &Vec<(String, Table)>, staged: &mut Vec<(String, Table)>, Ghost(reg): Ghost<Registry>)
        requires
            reg.wf(),
            old(c).wf(),
            snap@.len() == reg.containers@.len(),
            forall|q: int| 0 <= q < snap@.len() ==> {
                &&& (#[trigger] snap@[q]).0@ == reg.containers@[q].title@
                &&& snap@[q].1@ == reg.containers@[q].data@
                &&& table_wf(snap@[q].1@)
            },
            forall|q: int| 0 <= q < old(staged)@.len()
                ==> table_wf((#[trigger] old(staged)@[q]).1@),
        ensures
            final(c).wf(),
            final(c).title == old(c).title,
            final(c).filter.filtered_data is None,
            final(c).join.join == false,
            old(c).filter.filtered_data is None && old(c).join.join == false
                ==> *final(c) == *old(c),
            !(pending_join_succeeds(reg, *old(c)) && old(c).join.inplace)
                ==> final(c).data@ == drained_data(*old(c)),
            pending_join_succeeds(reg, *old(c)) && old(c).join.inplace
                ==> pending_join_result(reg, *old(c), final(c).data@),
            old(staged)@.len() <= final(staged)@.len(),
            forall|w: int| 0 <= w < old(staged)@.len()
                ==> (#[trigger] final(staged)@[w]) == old(staged)@[w],
            final(staged)@.len() <= old(staged)@.len() + (if old(c).filter.filtered_data is Some
                && !old(c).filter.inplace {
                1int
            } else {
                0int
            }) + (if old(c).join.join && !old(c).join.inplace
                && old(c).join.df_selection@.len() > 0 {
                1int
            } else {
                0int
            }),
            forall|q: int| 0 <= q < final(staged)@.len()
                ==> table_wf((#[trigger] final(staged)@[q]).1@),
            old(c).filter.filtered_data matches Some(t) ==> (!old(c).filter.inplace
                ==> exists|w: int|
                {
                    &&& old(staged)@.len() <= w < final(staged)@.len()
                    &&& (#[trigger] final(staged)@[w]).1@ == t@
                    &&& final(staged)@[w].0@ == "filtered_"@ + old(c).title@
                }),
            pending_join_succeeds(reg, *old(c)) && !old(c).join.inplace ==> exists|w: int|
                {
                    &&& old(staged)@.len() <= w < final(staged)@.len()
                    &&& pending_join_result(reg, *old(c), (#[trigger] final(staged)@[w]).1@)
                    &&& final(staged)@[w].0@ == "joined_"@ + old(c).title@
                },
    {
        let ghost oldc = *c;
        let ghost staged_entry = staged@;

        // Drain the staged filter result per the placement policy.
        let fd = c.filter.filtered_data.take();
        match fd {
            Some(t) => {
                if c.filter.inplace {
                    c.data = t;
                    c.shape = c.data.shape();
                    c.columns = c.data.column_names();
                    c.summary.summary_data = None;
                } else {
                    staged.push((prefixed("filtered_", &c.title), t));
                    proof {
                        assert(staged@[staged@.len() - 1].1 == oldc.filter.filtered_data->Some_0);
                        assert(staged@[staged@.len() - 1].0@ == "filtered_"@ + oldc.title@);
                    }
                }
            }
            None => {}
        }
        let ghost staged_filtered = staged@;
        proof {
            assert(c.data@ == drained_data(oldc));
            assert(c.join == oldc.join);
            assert(c.title == oldc.title);
        }

        // One join attempt per set trigger; the trigger is consumed
        // whatever the attempt's outcome.
        let ghost sel = oldc.join.df_selection@;
        let ghost landed = pending_join_succeeds(reg, oldc) && oldc.join.inplace;
        if c.join.join {
            c.join.join = false;
            if c.join.df_selection.as_str().unicode_len() > 0 {
                let target = find_snapshot(&snap, &c.join.df_selection);
                match target {
                    Some(peer) => {
                        proof {
                            let i_s = choose|w: int|
                                0 <= w < snap@.len() && (#[trigger] snap@[w]).0@ == sel
                                    && peer@ == snap@[w].1@;
                            assert(reg.containers@[i_s].title@ == sel);
                            assert(reg.has_title(sel));
                            reg.lemma_at_title(sel, i_s);
                            assert(peer@ == reg.spec_at_title(sel).data@);
                            assert(pending_join_fires(reg, oldc));
                        }
                        let hint = prefixed("joined_", &c.title);
                        match c.join_dataframe(peer) {
                            Ok(Some(t)) => {
                                proof {
                                    reveal(pending_join_succeeds);
                                    reveal(pending_join_result);
                                    assert(pending_join_succeeds(reg, oldc));
                                    assert(!oldc.join.inplace && !landed);
                                    assert(pending_join_result(reg, oldc, t@));
                                }
                                staged.push((hint, t));
                                proof {
                                    assert(staged@[staged@.len() - 1].0@
                                        == "joined_"@ + oldc.title@);
                                    assert(staged@[staged@.len() - 1].1 == t);
                                    assert(forall|w: int| 0 <= w < staged_filtered.len()
                                        ==> (#[trigger] staged@[w]) == staged_filtered[w]);
                                }
                            }
                            Ok(None) => {
                                proof {
                                    reveal(pending_join_succeeds);
                                    reveal(pending_join_result);
                                    assert(pending_join_succeeds(reg, oldc));
                                    assert(oldc.join.inplace && landed);
                                    assert(pending_join_result(reg, oldc, c.data@));
                                }
                            }
                            Err(_) => {
                                proof {
                                    reveal(pending_join_succeeds);
                                    assert(!pending_join_succeeds(reg, oldc));
                                    assert(!landed);
                                    assert(c.data@ == drained_data(oldc));
                                }
                            }
                        }
                    }
                    None => {
                        proof {
                            assert(!reg.has_title(sel)) by {
                                if reg.has_title(sel) {
                                    let w = choose|w: int|
                                        0 <= w < reg.containers@.len()
                                            && (#[trigger] reg.containers@[w].title@) == sel;
                                    assert(snap@[w].0@ == sel);
                                }
                            }
                            reveal(pending_join_succeeds);
                            assert(!pending_join_fires(reg, oldc) && !landed);
                        }
                    }
                }
            } else {
                proof {
                    reveal(pending_join_succeeds);
                    assert(!pending_join_fires(reg, oldc) && !landed);
                }
            }
        } else {
            proof {
                reveal(pending_join_succeeds);
                assert(!pending_join_fires(reg, oldc) && !landed);
            }
        }
        proof {
            assert(forall|w: int| 0 <= w < staged_entry.len()
                ==> (#[trigger] staged@[w]) == staged_entry[w]);
            assert(!landed ==> c.data@ == drained_data(oldc));
            if oldc.filter.filtered_data is Some && !oldc.filter.inplace {
                assert(staged@[staged_entry.len() as int] == staged_filtered[staged_entry.len() as int]);
            }
        }
    }

    /// One redraw frame's engine work: walks the containers once, draining
    /// each staged filter result (replacing the container's table under the
    /// in-place policy, else holding it aside) and firing each pending join
    /// trigger exactly once, resolved against the pre-frame snapshot;
    /// results destined for new containers are committed — spawned under
    /// fresh derived titles — only after the walk over the existing
    /// containers completes. Afterwards no filter result is left staged and
    /// no join trigger is left set; a container with neither comes through
    /// untouched. A container may name itself as the join target: the join
    /// then runs against its own pre-frame snapshot.
    #[verifier::rlimit(100)]
    pub fn process_frame(&mut self)
        requires
            old(self).wf(),
        ensures
            final(self).wf(),
            old(self).containers@.len() <= final(self).containers@.len()
                <= old(self).containers@.len() + pending_spawn_bound(old(self).containers@),
            forall|i: int| 0 <= i < old(self).containers@.len()
                ==> (#[trigger] final(self).containers@[i]).title
                    == old(self).containers@[i].title,
            forall|i: int| 0 <= i < old(self).containers@.len() ==> {
                &&& (#[trigger] final(self).containers@[i]).filter.filtered_data is None
                &&& final(self).containers@[i].join.join == false
            },
            forall|i: int| 0 <= i < old(self).containers@.len()
                && (#[trigger] old(self).containers@[i]).filter.filtered_data is None
                && old(self).containers@[i].join.join == false
                ==> final(self).containers@[i] == old(self).containers@[i],
            // The table law: unless a fired in-place join lands, a
            // container ends the frame with its drained table — the staged
            // filter result under the in-place policy, its own table
            // otherwise.
            forall|i: int| 0 <= i < old(self).containers@.len()
                && !(pending_join_succeeds(*old(self), old(self).containers@[i])
                    && old(self).containers@[i].join.inplace)
                ==> (#[trigger] final(self).containers@[i]).data@
                    == drained_data(old(self).containers@[i]),
            // A staged new-placement filter result becomes a new container
            // under a `filtered`-derived title.
            forall|i: int| 0 <= i < old(self).containers@.len()
                ==> ((#[trigger] old(self).containers@[i]).filter.filtered_data matches Some(t)
                    ==> (!old(self).containers@[i].filter.inplace ==> exists|j: int|
                        {
                            &&& old(self).containers@.len() <= j < final(self).containers@.len()
                            &&& (#[trigger] final(self).containers@[j]).data@ == t@
                            &&& exists|pad: Seq<char>|
                                {
                                    &&& final(self).containers@[j].title@
                                        == #[trigger] spawned_title(
                                        "filtered_"@ + old(self).containers@[i].title@,
                                        j,
                                        pad,
                                    )
                                    &&& all_underscores(pad)
                                }
                        })),
            // A fired in-place join lands its result in the container.
            forall|i: int| 0 <= i < old(self).containers@.len()
                && pending_join_succeeds(*old(self), #[trigger] old(self).containers@[i])
                && old(self).containers@[i].join.inplace
                ==> pending_join_result(
                    *old(self),
                    old(self).containers@[i],
                    final(self).containers@[i].data@,
                ),
            // A fired new-placement join spawns a container with its
            // result under a `joined`-derived title.
            forall|i: int| 0 <= i < old(self).containers@.len()
                && pending_join_succeeds(*old(self), #[trigger] old(self).containers@[i])
                && !old(self).containers@[i].join.inplace
                ==> exists|j: int|
                    {
                        &&& old(self).containers@.len() <= j < final(self).containers@.len()
                        &&& pending_join_result(
                            *old(self),
                            old(self).containers@[i],
                            (#[trigger] final(self).containers@[j]).data@,
                        )
                        &&& exists|pad: Seq<char>|
                            {
                                &&& final(self).containers@[j].title@ == #[trigger] spawned_title(
                                    "joined_"@ + old(self).containers@[i].title@,
                                    j,
                                    pad,
                                )
                                &&& all_underscores(pad)
                            }
                    },
    {
        let snap = snapshot_tables(&self.containers);
        let mut staged: Vec<(String, Table)> = Vec::new();
        let n = self.containers.len();
        proof {
            assert(old(self).containers@.take(0) =~= Seq::<DataFrameContainer>::empty());
        }
        let mut i: usize = 0;
        while i < n
            invariant
                i <= n,
                n == old(self).containers@.len(),
                old(self).wf(),
                self.containers@.len() == n,
                snap@.len() == n,
                forall|q: int| 0 <= q < n ==> {
                    &&& (#[trigger] snap@[q]).0@ == old(self).containers@[q].title@
                    &&& snap@[q].1@ == old(self).containers@[q].data@
                    &&& table_wf(snap@[q].1@)
                },
                forall|q: int| 0 <= q < self.containers@.len()
                    ==> (#[trigger] self.containers@[q]).wf(),
                forall|q: int, w: int| 0 <= q < w < self.containers@.len()
                    ==> self.containers@[q].title@ != self.containers@[w].title@,
                forall|q: int| i <= q < n
                    ==> (#[trigger] self.containers@[q]) == old(self).containers@[q],
                forall|q: int| 0 <= q < i
                    ==> (#[trigger] self.containers@[q]).title
                        == old(self).containers@[q].title,
                forall|q: int| 0 <= q < i ==> {
                    &&& (#[trigger] self.containers@[q]).filter.filtered_data is None
                    &&& self.containers@[q].join.join == false
                },
                forall|q: int| 0 <= q < i
                    && (#[trigger] old(self).containers@[q]).filter.filtered_data is None
                    && old(self).containers@[q].join.join == false
                    ==> self.containers@[q] == old(self).containers@[q],
                forall|q: int| 0 <= q < i
                    && !(pending_join_succeeds(*old(self), old(self).containers@[q])
                        && old(self).containers@[q].join.inplace)
                    ==> (#[trigger] self.containers@[q]).data@
                        == drained_data(old(self).containers@[q]),
                forall|q: int| 0 <= q < i
                    && pending_join_succeeds(*old(self), #[trigger] old(self).containers@[q])
                    && old(self).containers@[q].join.inplace
                    ==> pending_join_result(*old(self), old(self).containers@[q], self.containers@[q].data@),
                forall|q: int| 0 <= q < i
                    ==> ((#[trigger] old(self).containers@[q]).filter.filtered_data matches Some(t)
                        ==> (!old(self).containers@[q].filter.inplace ==> exists|w: int|
                            {
                                &&& 0 <= w < staged@.len()
                                &&& (#[trigger] staged@[w]).1@ == t@
                                &&& staged@[w].0@ == "filtered_"@
                                    + old(self).containers@[q].title@
                            })),
                forall|q: int| 0 <= q < i
                    && pending_join_succeeds(*old(self), #[trigger] old(self).containers@[q])
                    && !old(self).containers@[q].join.inplace
                    ==> exists|w: int|
                        {
                            &&& 0 <= w < staged@.len()
                            &&& pending_join_result(*old(self), old(self).containers@[q], (#[trigger] staged@[w]).1@)
                            &&& staged@[w].0@ == "joined_"@ + old(self).containers@[q].title@
                        },
                staged@.len() <= pending_spawn_bound(old(self).containers@.take(i as int)),
                forall|q: int| 0 <= q < staged@.len() ==> table_wf((#[trigger] staged@[q]).1@),
            decreases n - i,
        {
            let mut c = self.containers.remove(i);
            let ghost oldc = old(self).containers@[i as int];
            let ghost staged_entry = staged@;
            proof {
                assert(c == oldc);
            }
            Self::frame_step(&mut c, &snap, &mut staged, Ghost(*old(self)));
            proof {
                assert forall|q: int|
                    0 <= q < i + 1 && (#[trigger] old(self).containers@[q]).filter.filtered_data
                        is Some && !old(self).containers@[q].filter.inplace implies exists|w: int|
                    {
                        &&& 0 <= w < staged@.len()
                        &&& (#[trigger] staged@[w]).1@
                            == old(self).containers@[q].filter.filtered_data->Some_0@
                        &&& staged@[w].0@ == "filtered_"@ + old(self).containers@[q].title@
                    } by {
                    let t0 = old(self).containers@[q].filter.filtered_data->Some_0;
                    if q == i {
                        let w0 = choose|w: int|
                            staged_entry.len() <= w < staged@.len()
                                && (#[trigger] staged@[w]).1@ == t0@ && staged@[w].0@
                                == "filtered_"@ + oldc.title@;
                        assert(staged@[w0].1@ == t0@);
                        assert(staged@[w0].0@ == "filtered_"@ + old(self).containers@[q].title@);
                        assert(0 <= w0 < staged@.len());
                    } else {
                        let w0 = choose|w: int|
                            0 <= w < staged_entry.len() && (#[trigger] staged_entry[w]).1@ == t0@
                                && staged_entry[w].0@ == "filtered_"@
                                + old(self).containers@[q].title@;
                        assert(staged@[w0] == staged_entry[w0]);
                        assert(staged@[w0].1@ == t0@);
                        assert(staged@[w0].0@ == "filtered_"@ + old(self).containers@[q].title@);
                        assert(0 <= w0 < staged@.len());
                    }
                }
                assert forall|q: int|
                    0 <= q < i + 1 && pending_join_succeeds(
                        *old(self),
                        #[trigger] old(self).containers@[q],
                    ) && !old(self).containers@[q].join.inplace implies exists|w: int|
                    {
                        &&& 0 <= w < staged@.len()
                        &&& pending_join_result(*old(self), old(self).containers@[q], (#[trigger] staged@[w]).1@)
                        &&& staged@[w].0@ == "joined_"@ + old(self).containers@[q].title@
                    } by {
                    if q == i {
                        let w0 = choose|w: int|
                            staged_entry.len() <= w < staged@.len()
                                && pending_join_result(*old(self), oldc, (#[trigger] staged@[w]).1@) && staged@[w].0@ == "joined_"@ + oldc.title@;
                        assert(staged@[w0].0@ == "joined_"@ + oldc.title@);
                    } else {
                        let w0 = choose|w: int|
                            0 <= w < staged_entry.len() && pending_join_result(*old(self), old(self).containers@[q], (#[trigger] staged_entry[w]).1@) && staged_entry[w].0@ == "joined_"@
                                + old(self).containers@[q].title@;
                        assert(staged@[w0] == staged_entry[w0]);
                    }
                }
                // The spawn bound grows by exactly this container's share.
                let pre = old(self).containers@.take(i as int);
                let cur = old(self).containers@.take(i as int + 1);
                assert(cur.drop_last() =~= pre);
                assert(cur.last() == oldc);
                assert(staged@.len() <= pending_spawn_bound(cur));
            }
            self.containers.insert(i, c);
            i += 1;
        }
        proof {
            assert(old(self).containers@.take(n as int) =~= old(self).containers@);
        }

        // Commit: the held-aside results become new containers only now,
        // after the iteration over the existing containers has completed.
        let ghost staged_final = staged@;
        self.commit_staged(staged);
        proof {
            assert forall|q: int|
                0 <= q < old(self).containers@.len() && (#[trigger] old(
                    self,
                ).containers@[q]).filter.filtered_data is Some
                    && !old(self).containers@[q].filter.inplace implies exists|j: int|
                {
                    &&& old(self).containers@.len() <= j < self.containers@.len()
                    &&& (#[trigger] self.containers@[j]).data@
                        == old(self).containers@[q].filter.filtered_data->Some_0@
                    &&& exists|pad: Seq<char>|
                        {
                            &&& self.containers@[j].title@ == #[trigger] spawned_title(
                                "filtered_"@ + old(self).containers@[q].title@,
                                j,
                                pad,
                            )
                            &&& all_underscores(pad)
                        }
                } by {
                let t0 = old(self).containers@[q].filter.filtered_data->Some_0;
                let w0 = choose|w: int|
                    0 <= w < staged_final.len() && (#[trigger] staged_final[w]).1@ == t0@
                        && staged_final[w].0@ == "filtered_"@ + old(self).containers@[q].title@;
                let j0 = old(self).containers@.len() as int + w0;
                assert(self.containers@[j0].data@ == staged_final[w0].1@);
            }
            assert forall|q: int|
                0 <= q < old(self).containers@.len() && pending_join_succeeds(
                    *old(self),
                    #[trigger] old(self).containers@[q],
                ) && !old(self).containers@[q].join.inplace implies exists|j: int|
                {
                    &&& old(self).containers@.len() <= j < self.containers@.len()
                    &&& pending_join_result(*old(self), old(self).containers@[q], (#[trigger] self.containers@[j]).data@)
                    &&& exists|pad: Seq<char>|
                        {
                            &&& self.containers@[j].title@ == #[trigger] spawned_title(
                                "joined_"@ + old(self).containers@[q].title@,
                                j,
                                pad,
                            )
                            &&& all_underscores(pad)
                        }
                } by {
                let w0 = choose|w: int|
                    0 <= w < staged_final.len() && pending_join_result(*old(self), old(self).containers@[q], (#[trigger] staged_final[w]).1@) && staged_final[w].0@ == "joined_"@ + old(self).containers@[q].title@;
                let j0 = old(self).containers@.len() as int + w0;
                assert(self.containers@[j0].data@ == staged_final[w0].1@);
            }
        }
    }

    /// Spawns a container for every held-aside result, in order, leaving
    /// the existing containers exactly as they are: the `j`-th appended
    /// container carries the `j`-th staged table, under a title derived
    /// from its hint and the container count at its spawn.
    fn commit_staged(&mut self, staged: Vec<(String, Table)>)
        requires
            old(self).wf(),
            forall|q: int| 0 <= q < staged@.len() ==> table_wf((#[trigger] staged@[q]).1@),
        ensures
            final(self).wf(),
            final(self).containers@.len() == old(self).containers@.len() + staged@.len(),
            forall|q: int| 0 <= q < old(self).containers@.len()
                ==> (#[trigger] final(self).containers@[q]) == old(self).containers@[q],
            forall|j: int| old(self).containers@.len() <= j < final(self).containers@.len() ==> {
                &&& (#[trigger] final(self).containers@[j]).data@
                    == staged@[j - old(self).containers@.len()].1@
                &&& exists|pad: Seq<char>|
                    {
                        &&& final(self).containers@[j].title@ == #[trigger] spawned_title(
                            staged@[j - old(self).containers@.len()].0@,
                            j,
                            pad,
                        )
                        &&& all_underscores(pad)
                    }
            },
    {
        let ghost all = staged@;
        let ghost base = old(self).containers@.len() as int;
        let mut staged = staged;
        let ghost mut done: int = 0;
        while staged.len() > 0
            invariant
                self.wf(),
                0 <= done,
                done + staged@.len() == all.len(),
                base == old(self).containers@.len() as int,
                self.containers@.len() == base + done,
                forall|w: int| 0 <= w < staged@.len() ==> (#[trigger] staged@[w]) == all[done + w],
                forall|q: int| 0 <= q < staged@.len() ==> table_wf((#[trigger] staged@[q]).1@),
                forall|q: int| 0 <= q < base
                    ==> (#[trigger] self.containers@[q]) == old(self).containers@[q],
                forall|j: int| base <= j < self.containers@.len() ==> {
                    &&& (#[trigger] self.containers@[j]).data@ == all[j - base].1@
                    &&& exists|pad: Seq<char>|
                        {
                            &&& self.containers@[j].title@ == #[trigger] spawned_title(
                                all[j - base].0@,
                                j,
                                pad,
                            )
                            &&& all_underscores(pad)
                        }
                },
            decreases staged@.len(),
        {
            let ghost staged_pre = staged@;
            let ghost pre_containers = self.containers@;
            let (hint, t) = staged.remove(0);
            let ghost spawned_at = self.containers@.len() as int;
            let fresh = self.spawn(hint.as_str(), t);
            proof {
                assert(staged_pre[0] == all[done]);
                assert(spawned_at == base + done);
                assert(hint@ == all[done].0@);
                assert(self.containers@[spawned_at].data@ == all[done].1@);
                assert(self.containers@[spawned_at].title@ == fresh@);
                assert(forall|j: int| 0 <= j < spawned_at
                    ==> (#[trigger] self.containers@[j]) == pre_containers[j]);
                assert(forall|w: int| 0 <= w < staged@.len()
                    ==> (#[trigger] staged@[w]) == staged_pre[w + 1]);
                done = done + 1;
            }
        }
    }
}

impl Registry {
    /// The container a present title resolves to (meaningful only when
    /// `has_title`; with `wf`, the one container so titled).
    pub open spec fn spec_at_title(self, name: Seq<char>) -> DataFrameContainer {
        self.containers@[choose|i: int|
            0 <= i < self.containers@.len() && (#[trigger] self.containers@[i]).title@ == name]
    }

    /// With distinct titles, every slot carrying a present title holds the
    /// resolved container.
    pub proof fn lemma_at_title(self, name: Seq<char>, i: int)
        requires
            self.wf(),
            0 <= i < self.containers@.len(),
            self.containers@[i].title@ == name,
        ensures
            self.spec_at_title(name) == self.containers@[i],
    {
        let w = choose|w: int|
            0 <= w < self.containers@.len() && (#[trigger] self.containers@[w]).title@ == name;
        if w != i {
            assert(self.containers@[w].title@ != self.containers@[i].title@);
        }
    }

    /// One explicit join attempt by the container at slot `i`, the
    /// operation a join click triggers: resolves the configured target
    /// title (absent: `TargetNotFound`, the join skipped and only the
    /// trigger flag consumed), joins the container's table against the
    /// target's, and places the result — in place, or spawned as a new
    /// `joined`-titled container. On every error the tables are unchanged.
    /// A container may target itself; it joins against its own current
    /// table. A pending filter result is deliberately left as it stands:
    /// staged results are consumed by the frame drain alone, never as a
    /// join's side effect.
    #[verifier::rlimit(60)]
    pub fn join_at(&mut self, i: usize) -> (r: Result<(), EngineError>)
        requires
            old(self).wf(),
            i < old(self).containers@.len(),
        ensures
            final(self).wf(),
            final(self).containers@.len() >= old(self).containers@.len(),
            forall|q: int| 0 <= q < old(self).containers@.len()
                ==> (#[trigger] final(self).containers@[q]).title
                    == old(self).containers@[q].title,
            forall|q: int| 0 <= q < old(self).containers@.len() && q != i
                ==> (#[trigger] final(self).containers@[q]) == old(self).containers@[q],
            final(self).containers@[i as int].join.join == false,
            ({
                let left = old(self).containers@[i as int];
                let sel = left.join.df_selection@;
                let cleared = DataFrameContainer {
                    join: DataFrameJoin { join: false, ..left.join },
                    ..left
                };
                match r {
                    Ok(()) => {
                        &&& old(self).has_title(sel)
                        &&& {
                            let peer = old(self).spec_at_title(sel).data;
                            &&& crate::container::join_succeeds(
                                left.data@,
                                peer@,
                                left.join.left_on_selection@,
                                left.join.right_on_selection@,
                                left.join.how,
                            )
                            &&& (left.join.inplace ==> {
                                &&& final(self).containers@.len() == old(self).containers@.len()
                                &&& crate::container::join_result_is(
                                    left.data@,
                                    peer@,
                                    left.join.left_on_selection@,
                                    left.join.right_on_selection@,
                                    left.join.how,
                                    final(self).containers@[i as int].data@,
                                )
                                &&& final(self).containers@[i as int].summary.summary_data is None
                                &&& final(self).containers@[i as int].filter == left.filter
                                &&& final(self).containers@[i as int].aggregate == left.aggregate
                                &&& final(self).containers@[i as int].melt == left.melt
                                &&& final(self).containers@[i as int].join == cleared.join
                            })
                            &&& (!left.join.inplace ==> {
                                &&& final(self).containers@[i as int] == cleared
                                &&& final(self).containers@.len() == old(self).containers@.len()
                                    + 1
                                &&& crate::container::join_result_is(
                                    left.data@,
                                    peer@,
                                    left.join.left_on_selection@,
                                    left.join.right_on_selection@,
                                    left.join.how,
                                    final(self).containers@.last().data@,
                                )
                                &&& exists|pad: Seq<char>|
                                    {
                                        &&& final(self).containers@.last().title@
                                            == #[trigger] spawned_title(
                                            "joined_"@ + left.title@,
                                            old(self).containers@.len() as int,
                                            pad,
                                        )
                                        &&& all_underscores(pad)
                                    }
                            })
                        }
                    },
                    Err(EngineError::TargetNotFound) => {
                        &&& !old(self).has_title(sel)
                        &&& final(self).containers@[i as int] == cleared
                        &&& final(self).containers@.len() == old(self).containers@.len()
                    },
                    Err(EngineError::ColumnNotFound) => {
                        &&& old(self).has_title(sel)
                        &&& final(self).containers@[i as int] == cleared
                        &&& final(self).containers@.len() == old(self).containers@.len()
                        &&& !crate::container::join_succeeds(
                            left.data@,
                            old(self).spec_at_title(sel).data@,
                            left.join.left_on_selection@,
                            left.join.right_on_selection@,
                            left.join.how,
                        )
                    },
                    Err(_) => false,
                }
            }),
    {
        let sel = self.containers[i].join.df_selection.clone();
        let found = self.find_title(sel.as_str());
        let ghost left = old(self).containers@[i as int];
        match found {
            None => {
                let mut c = self.containers.remove(i);
                c.join.join = false;
                self.containers.insert(i, c);
                proof {
                    assert(final(self).containers@[i as int] == (DataFrameContainer {
                        join: DataFrameJoin { join: false, ..left.join },
                        ..left
                    }));
                }
                Err(EngineError::TargetNotFound)
            }
            Some(j) => {
                proof {
                    self.lemma_at_title(sel@, j as int);
                    assert(self.containers@[j as int].wf());
                }
                let peer = self.containers[j].data.duplicate();
                let mut c = self.containers.remove(i);
                c.join.join = false;
                let out = c.join_dataframe(&peer);
                self.containers.insert(i, c);
                match out {
                    Ok(Some(t)) => {
                        proof {
                            assert(forall|q: int|
                                0 <= q < old(self).containers@.len() && q != i
                                    ==> (#[trigger] self.containers@[q])
                                        == old(self).containers@[q]);
                        }
                        let hint = prefixed("joined_", &self.containers[i].title);
                        proof {
                            assert(hint@ == "joined_"@ + left.title@);
                        }
                        let ghost pre = self.containers@;
                        let _ = self.spawn(hint.as_str(), t);
                        proof {
                            assert(self.containers@.last().data@ == t@);
                            assert(pre.len() == old(self).containers@.len());
                        }
                        Ok(())
                    }
                    Ok(None) => Ok(()),
                    Err(e) => Err(e),
                }
            }
        }
    }
}

/// A vacuous predicate, used only as a quantifier trigger for the padding
/// sequence a collision-resolved title carries.
pub open spec fn trivial(pad: Seq<char>) -> bool {
    true
}

/// Registry uniqueness: a well-formed registry's titles are pairwise
/// distinct — and `spawn` both preserves well-formedness and returns a
/// title no live container carried, so any number of spawns keeps every
/// title distinct.
pub proof fn lemma_titles_pairwise_distinct(r: Registry)
    requires
        r.wf(),
    ensures
        forall|i: int, j: int| 0 <= i < j < r.containers@.len()
            ==> r.spec_titles()[i] != r.spec_titles()[j],
{
}

/// Linear lookup of a container by title among a flat list, the shape the
/// join engine's target resolution uses: the first container so titled, in
/// vector order (a well-formed registry has at most one).
pub fn get_container<'a>(containers: &'a Vec<DataFrameContainer>, title: &str) -> (r: Option<&'a DataFrameContainer>)
    ensures
        match r {
            Some(c) => exists|i: int|
                {
                    &&& 0 <= i < containers@.len()
                    &&& *c == (#[trigger] containers@[i])
                    &&& c.title@ == title@
                    &&& forall|q: int| 0 <= q < i ==> (#[trigger] containers@[q].title@) != title@
                },
            None => forall|i: int| 0 <= i < containers@.len()
                ==> (#[trigger] containers@[i].title@) != title@,
        },
{
    let key: String = title.to_owned();
    let mut i: usize = 0;
    while i < containers.len()
        invariant
            i <= containers@.len(),
            key@ == title@,
            forall|q: int| 0 <= q < i ==> (#[trigger] containers@[q].title@) != title@,
        decreases containers@.len() - i,
    {
        if containers[i].title == key {
            return Some(&containers[i]);
        }
        i += 1;
    }
    None
}

} // verus!
