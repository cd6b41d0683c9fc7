//! The decisions of the side panel: when a shortest-path search starts and
//! what it shows, which persons are excluded from paths, which person the
//! information panel follows, and the figures a new tab starts with.
use vstd::prelude::*;
use crate::algorithms::AbstractNode;
use crate::algorithms::pathfinding::{adjacency, links_in_range, PathSectionResults, PathSectionSettings};
use crate::graph_storage::Person;
use crate::stats::{friend_degrees, friendship_paradox, max_of, min_of, seq_sum, ParadoxState};

verus! {

/// What the path panel shows.
pub enum PathStatus {
    SameSrcDest,
    NoPath,
    PathFound(Vec<usize>),
}

/// The path panel: the search settings, whether they changed since the last
/// search, whether a search runs, and what the last one gave.
pub struct PathSection {
    pub path_settings: PathSectionSettings,
    pub path_dirty: bool,
    pub path_loading: bool,
    pub path_status: Option<PathStatus>,
}

/// What the panel asks of the program after a change.
pub enum PathAction {
    /// Nothing to run.
    Idle,
    /// Run a search with these settings.
    Search(PathSectionSettings),
}

/// A copy of the settings, field for field.
pub fn copy_settings(s: &PathSectionSettings) -> (r: PathSectionSettings)
    ensures
        r.path_src == s.path_src,
        r.path_dest == s.path_dest,
        r.exclude_ids@ == s.exclude_ids@,
        r.path_no_direct == s.path_no_direct,
        r.path_no_mutual == s.path_no_mutual,
{
    let mut ids: Vec<usize> = Vec::new();
    let mut i: usize = 0;
    while i < s.exclude_ids.len()
        invariant
            i <= s.exclude_ids@.len(),
            ids@ == s.exclude_ids@.take(i as int),
        decreases s.exclude_ids@.len() - i,
    {
        ids.push(s.exclude_ids[i]);
        i += 1;
        proof {
            assert(ids@ =~= s.exclude_ids@.take(i as int));
        }
    }
    proof {
        assert(s.exclude_ids@.take(i as int) =~= s.exclude_ids@);
    }
    PathSectionSettings {
        path_src: s.path_src,
        path_dest: s.path_dest,
        exclude_ids: ids,
        path_no_direct: s.path_no_direct,
        path_no_mutual: s.path_no_mutual,
    }
}

impl PathSection {
    /// A panel with nothing chosen.
    pub fn new() -> (p: PathSection)
        ensures
            p.path_settings.path_src is None,
            p.path_settings.path_dest is None,
            p.path_settings.exclude_ids@.len() == 0,
            !p.path_settings.path_no_direct,
            !p.path_settings.path_no_mutual,
            !p.path_dirty,
            !p.path_loading,
            p.path_status is None,
    {
        PathSection {
            path_settings: PathSectionSettings {
                path_src: None,
                path_dest: None,
                exclude_ids: Vec::new(),
                path_no_direct: false,
                path_no_mutual: false,
            },
            path_dirty: false,
            path_loading: false,
            path_status: None,
        }
    }

    /// After a change of the settings (or when they are marked changed):
    /// the same person at both ends, or a missing end, is shown at once;
    /// otherwise a search starts.
    pub fn settings_changed(&mut self, changed: bool) -> (a: PathAction)
        ensures
            final(self).path_settings == old(self).path_settings,
            !(old(self).path_dirty || changed) ==> {
                &&& a is Idle
                &&& final(self).path_dirty == old(self).path_dirty
                &&& final(self).path_loading == old(self).path_loading
                &&& final(self).path_status == old(self).path_status
            },
            (old(self).path_dirty || changed) ==> {
                let s = old(self).path_settings;
                &&& !final(self).path_dirty
                &&& match (s.path_src, s.path_dest) {
                    (Some(x), Some(y)) => if x == y {
                        &&& a is Idle
                        &&& final(self).path_status matches Some(PathStatus::SameSrcDest)
                        &&& !final(self).path_loading
                    } else {
                        &&& a matches PathAction::Search(t) && t.path_src == s.path_src && t.path_dest == s.path_dest
                            && t.exclude_ids@ == s.exclude_ids@ && t.path_no_direct == s.path_no_direct
                            && t.path_no_mutual == s.path_no_mutual
                        &&& final(self).path_loading
                        &&& final(self).path_status == old(self).path_status
                    },
                    _ => {
                        &&& a is Idle
                        &&& final(self).path_status is None
                        &&& !final(self).path_loading
                    },
                }
            },
    {
        if !(self.path_dirty || changed) {
            return PathAction::Idle;
        }
        self.path_dirty = false;
        match (self.path_settings.path_src, self.path_settings.path_dest) {
            (Some(x), Some(y)) => {
                if x == y {
                    self.path_status = Some(PathStatus::SameSrcDest);
                    self.path_loading = false;
                    PathAction::Idle
                } else {
                    self.path_loading = true;
                    PathAction::Search(copy_settings(&self.path_settings))
                }
            },
            _ => {
                self.path_status = None;
                self.path_loading = false;
                PathAction::Idle
            },
        }
    }

    /// A search has ended with `result` (`None` also when it failed).
    pub fn search_done(&mut self, result: Option<PathSectionResults>)
        ensures
            final(self).path_settings == old(self).path_settings,
            final(self).path_dirty == old(self).path_dirty,
            !final(self).path_loading,
            match result {
                Some(res) => final(self).path_status matches Some(PathStatus::PathFound(p)) && p@ == res.path@,
                None => final(self).path_status matches Some(PathStatus::NoPath),
            },
    {
        self.path_loading = false;
        match result {
            Some(res) => {
                self.path_status = Some(PathStatus::PathFound(res.path));
            },
            None => {
                self.path_status = Some(PathStatus::NoPath);
            },
        }
    }

    /// Keeps person `id` out of paths from now on.
    pub fn exclude(&mut self, id: usize)
        ensures
            final(self).path_dirty,
            final(self).path_loading == old(self).path_loading,
            final(self).path_settings.path_src == old(self).path_settings.path_src,
            final(self).path_settings.path_dest == old(self).path_settings.path_dest,
            final(self).path_settings.path_no_direct == old(self).path_settings.path_no_direct,
            final(self).path_settings.path_no_mutual == old(self).path_settings.path_no_mutual,
            final(self).path_settings.exclude_ids@ == (if old(self).path_settings.exclude_ids@.contains(id) {
                old(self).path_settings.exclude_ids@
            } else {
                old(self).path_settings.exclude_ids@.push(id)
            }),
    {
        self.path_dirty = true;
        let mut found = false;
        let mut i: usize = 0;
        while i < self.path_settings.exclude_ids.len()
            invariant
                i <= self.path_settings.exclude_ids@.len(),
                found == self.path_settings.exclude_ids@.take(i as int).contains(id),
            decreases self.path_settings.exclude_ids@.len() - i,
        {
            proof {
                let t = self.path_settings.exclude_ids@.take(i + 1);
                assert(t =~= self.path_settings.exclude_ids@.take(i as int).push(self.path_settings.exclude_ids@[i as int]));
                if t.contains(id) && !self.path_settings.exclude_ids@.take(i as int).contains(id) {
                    let k = choose|k: int| 0 <= k < t.len() && t[k] == id;
                    assert(k == i);
                }
                if self.path_settings.exclude_ids@.take(i as int).contains(id) {
                    let k = choose|k: int| 0 <= k < i && self.path_settings.exclude_ids@.take(i as int)[k] == id;
                    assert(t[k] == id);
                }
                if self.path_settings.exclude_ids@[i as int] == id {
                    assert(t[i as int] == id);
                }
            }
            if self.path_settings.exclude_ids[i] == id {
                found = true;
            }
            i += 1;
        }
        proof {
            assert(self.path_settings.exclude_ids@.take(i as int) =~= self.path_settings.exclude_ids@);
        }
        if !found {
            self.path_settings.exclude_ids.push(id);
        }
    }

    /// Empties the exclusion list.
    pub fn clear_exclusions(&mut self)
        ensures
            final(self).path_dirty,
            final(self).path_settings.exclude_ids@.len() == 0,
            final(self).path_settings.path_src == old(self).path_settings.path_src,
            final(self).path_settings.path_dest == old(self).path_settings.path_dest,
    {
        self.path_settings.exclude_ids.clear();
        self.path_dirty = true;
    }

    /// Takes entry `i` off the exclusion list.
    pub fn remove_exclusion(&mut self, i: usize)
        requires
            i < old(self).path_settings.exclude_ids@.len(),
        ensures
            final(self).path_dirty,
            final(self).path_settings.exclude_ids@ == old(self).path_settings.exclude_ids@.remove(i as int),
            final(self).path_settings.path_src == old(self).path_settings.path_src,
            final(self).path_settings.path_dest == old(self).path_settings.path_dest,
    {
        self.path_dirty = true;
        self.path_settings.exclude_ids.remove(i);
    }
}

/// The distance shown for a path: its number of links.
pub fn path_distance(path: &Vec<usize>) -> (r: usize)
    requires
        path@.len() > 0,
    ensures
        r == path@.len() - 1,
{
    path.len() - 1
}

/// The information panel: the person it follows, whether it is open, the
/// neighbourhood degree chosen, and the friendship-paradox figures last
/// computed.
pub struct InfosSection {
    pub infos_current: Option<usize>,
    pub infos_open: bool,
    pub neighborhood_degree: usize,
    pub paradox: ParadoxState,
}

impl InfosSection {
    pub fn new() -> (s: InfosSection)
        ensures
            s.infos_current is None,
            !s.infos_open,
            s.neighborhood_degree == 1,
            s.paradox.current is None,
    {
        InfosSection {
            infos_current: None,
            infos_open: false,
            neighborhood_degree: 1,
            paradox: ParadoxState { current: None, sum: 0, min: 0, max: 0 },
        }
    }

    /// Follows person `id`, or nobody; the panel is open when it follows
    /// someone.
    pub fn set_infos_current(&mut self, id: Option<usize>)
        ensures
            final(self).infos_current == id,
            final(self).infos_open == id is Some,
            final(self).neighborhood_degree == old(self).neighborhood_degree,
            final(self).paradox == old(self).paradox,
    {
        self.infos_current = id;
        self.infos_open = id.is_some();
    }

    /// Recomputes the friendship-paradox figures when they are not those of
    /// the person followed.
    pub fn refresh_paradox<N: AbstractNode>(&mut self, persons: &[N])
        requires
            old(self).infos_current matches Some(id) && id < persons@.len(),
            links_in_range(adjacency(persons@)),
            seq_sum(friend_degrees(adjacency(persons@), old(self).infos_current->0 as int)) <= usize::MAX,
        ensures
            final(self).infos_current == old(self).infos_current,
            final(self).infos_open == old(self).infos_open,
            final(self).neighborhood_degree == old(self).neighborhood_degree,
            old(self).paradox.current == old(self).infos_current ==> final(self).paradox == old(self).paradox,
            old(self).paradox.current != old(self).infos_current ==> {
                let d = friend_degrees(adjacency(persons@), old(self).infos_current->0 as int);
                &&& final(self).paradox.current == old(self).infos_current
                &&& final(self).paradox.sum == seq_sum(d)
                &&& final(self).paradox.min == min_of(d)
                &&& final(self).paradox.max == max_of(d)
            },
    {
        let id = match self.infos_current {
            Some(id) => id,
            None => {
                return;
            },
        };
        let same = match self.paradox.current {
            Some(c) => c == id,
            None => false,
        };
        if !same {
            self.paradox = friendship_paradox(persons, id);
        }
    }
}

/// The largest number of neighbours of a person, as a `u16`.
pub fn max_degree(persons: &[Person]) -> (r: u16)
    requires
        persons@.len() > 0,
    ensures
        exists|i: int|
            0 <= i < persons@.len() && r == (#[trigger] persons@[i].neighbors@.len() % 0x1_0000) as u16 && forall|j: int|
                0 <= j < persons@.len() ==> persons@[j].neighbors@.len() <= persons@[i].neighbors@.len(),
{
    let mut best: usize = 0;
    let mut i: usize = 1;
    while i < persons.len()
        invariant
            1 <= i <= persons@.len(),
            best < i,
            forall|j: int| 0 <= j < i ==> persons@[j].neighbors@.len() <= persons@[best as int].neighbors@.len(),
        decreases persons@.len() - i,
    {
        if persons[i].neighbors.len() > persons[best].neighbors.len() {
            best = i;
        }
        i += 1;
    }
    let len = persons[best].neighbors.len();
    let r = len as u16;
    assert(r == (len % 0x1_0000) as u16) by (bit_vector)
        requires
            r == len as u16;
    r
}


/// Which field a click on the graph fills.
#[derive(Clone, Copy, PartialEq, Eq, Structural, Debug)]
pub enum SelectedUserField {
    Selected,
    PathSource,
    PathDest,
}

impl Default for SelectedUserField {
    fn default() -> (f: SelectedUserField)
        ensures
            f == SelectedUserField::PathSource,
    {
        SelectedUserField::PathSource
    }
}

/// A click on the graph picked person `closest`: the information panel
/// follows it, and it fills the field chosen; filling the source of the path
/// moves on to its destination.
pub fn person_clicked(
    infos: &mut InfosSection,
    path: &mut PathSection,
    field: &mut SelectedUserField,
    closest: usize,
)
    ensures
        final(infos).infos_current == Some(closest),
        final(infos).infos_open,
        final(infos).neighborhood_degree == old(infos).neighborhood_degree,
        final(infos).paradox == old(infos).paradox,
        final(path).path_settings.exclude_ids@ == old(path).path_settings.exclude_ids@,
        final(path).path_settings.path_no_direct == old(path).path_settings.path_no_direct,
        final(path).path_settings.path_no_mutual == old(path).path_settings.path_no_mutual,
        final(path).path_loading == old(path).path_loading,
        final(path).path_status == old(path).path_status,
        match *old(field) {
            SelectedUserField::Selected => {
                &&& final(path).path_settings.path_src == old(path).path_settings.path_src
                &&& final(path).path_settings.path_dest == old(path).path_settings.path_dest
                &&& final(path).path_dirty == old(path).path_dirty
                &&& *final(field) == SelectedUserField::Selected
            },
            SelectedUserField::PathSource => {
                &&& final(path).path_settings.path_src == Some(closest)
                &&& final(path).path_settings.path_dest == old(path).path_settings.path_dest
                &&& final(path).path_dirty
                &&& *final(field) == SelectedUserField::PathDest
            },
            SelectedUserField::PathDest => {
                &&& final(path).path_settings.path_src == old(path).path_settings.path_src
                &&& final(path).path_settings.path_dest == Some(closest)
                &&& final(path).path_dirty
                &&& *final(field) == SelectedUserField::PathDest
            },
        },
{
    infos.infos_current = Some(closest);
    infos.infos_open = true;
    match *field {
        SelectedUserField::Selected => {},
        SelectedUserField::PathSource => {
            path.path_settings.path_src = Some(closest);
            path.path_dirty = true;
            *field = SelectedUserField::PathDest;
        },
        SelectedUserField::PathDest => {
            path.path_settings.path_dest = Some(closest);
            path.path_dirty = true;
        },
    }
}

/// The number of search results shown at most.
pub const RESULTS: usize = 100;

/// The state of a search box: the results shown, whether a search runs, the
/// text typed, and whether the box was just opened.
pub struct ComboFilterState {
    pub item_vector: Vec<usize>,
    pub loading: bool,
    pub pattern: String,
    pub first_open: bool,
}

/// The results shown before anything is typed: the first persons.
fn first_items() -> (r: Vec<usize>)
    ensures
        r@ == Seq::new(RESULTS as nat, |i: int| i as usize),
{
    let mut v: Vec<usize> = Vec::new();
    let mut i: usize = 0;
    while i < RESULTS
        invariant
            i <= RESULTS,
            v@ == Seq::new(i as nat, |j: int| j as usize),
        decreases RESULTS - i,
    {
        v.push(i);
        i += 1;
        proof {
            assert(v@ =~= Seq::new(i as nat, |j: int| j as usize));
        }
    }
    v
}

impl ComboFilterState {
    pub fn new() -> (s: ComboFilterState)
        ensures
            s.item_vector@ == Seq::new(RESULTS as nat, |i: int| i as usize),
            !s.loading,
            s.pattern@.len() == 0,
            !s.first_open,
    {
        ComboFilterState { item_vector: first_items(), loading: false, pattern: String::new(), first_open: false }
    }

    /// The text changed: an empty text shows the first persons again;
    /// another starts a search for it, whose text is returned.
    pub fn pattern_changed(&mut self) -> (r: Option<String>)
        ensures
            final(self).pattern@ == old(self).pattern@,
            final(self).first_open == old(self).first_open,
            old(self).pattern@.len() == 0 ==> {
                &&& r is None
                &&& !final(self).loading
                &&& final(self).item_vector@ == Seq::new(RESULTS as nat, |i: int| i as usize)
            },
            old(self).pattern@.len() != 0 ==> {
                &&& r matches Some(p) && p@ == old(self).pattern@
                &&& final(self).loading
                &&& final(self).item_vector@ == old(self).item_vector@
            },
    {
        if self.pattern.as_str().is_empty() {
            self.loading = false;
            self.item_vector = first_items();
            None
        } else {
            self.loading = true;
            Some(self.pattern.clone())
        }
    }

    /// The results of a search for `pattern` arrived; they are shown only
    /// if the text is still the same.
    pub fn results_arrived(&mut self, pattern: &String, res: &Vec<u32>)
        ensures
            final(self).pattern@ == old(self).pattern@,
            final(self).first_open == old(self).first_open,
            pattern@ == old(self).pattern@ ==> {
                &&& final(self).item_vector@ == res@.map_values(|x: u32| x as usize)
                &&& !final(self).loading
            },
            pattern@ != old(self).pattern@ ==> {
                &&& final(self).item_vector@ == old(self).item_vector@
                &&& final(self).loading == old(self).loading
            },
    {
        if self.pattern == *pattern {
            let mut v: Vec<usize> = Vec::new();
            let mut i: usize = 0;
            while i < res.len()
                invariant
                    i <= res@.len(),
                    v@ == res@.take(i as int).map_values(|x: u32| x as usize),
                decreases res@.len() - i,
            {
                v.push(res[i] as usize);
                i += 1;
                proof {
                    assert(v@ =~= res@.take(i as int).map_values(|x: u32| x as usize));
                }
            }
            proof {
                assert(res@.take(i as int) =~= res@);
            }
            self.item_vector = v;
            self.loading = false;
        }
    }

    /// The popup is closed: the next time it opens is a first opening again.
    pub fn popup_closed(&mut self)
        ensures
            !final(self).first_open,
            final(self).item_vector@ == old(self).item_vector@,
            final(self).loading == old(self).loading,
            final(self).pattern@ == old(self).pattern@,
    {
        self.first_open = false;
    }

    /// The popup is shown; returns whether this is its first frame since it
    /// opened (when the text box takes the focus and its text is selected).
    pub fn popup_shown(&mut self) -> (first: bool)
        ensures
            first == !old(self).first_open,
            final(self).first_open,
            final(self).item_vector@ == old(self).item_vector@,
            final(self).loading == old(self).loading,
            final(self).pattern@ == old(self).pattern@,
    {
        let first = !self.first_open;
        self.first_open = true;
        first
    }

    /// How many result rows are drawn for a graph of `persons` persons.
    pub fn rows_shown(&self, persons: usize) -> (r: usize)
        ensures
            r == (if self.show_count_spec() < persons { self.show_count_spec() } else { persons as nat }),
    {
        let c = self.show_count();
        if c < persons {
            c
        } else {
            persons
        }
    }

    /// How many results are listed.
    pub open spec fn show_count_spec(&self) -> nat {
        if self.item_vector@.len() < RESULTS {
            self.item_vector@.len()
        } else {
            RESULTS as nat
        }
    }

    /// How many results are listed.
    pub fn show_count(&self) -> (r: usize)
        ensures
            r == self.show_count_spec(),
    {
        if self.item_vector.len() < RESULTS {
            self.item_vector.len()
        } else {
            RESULTS
        }
    }
}

} // verus!
