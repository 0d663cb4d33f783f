//! A cache of the paths computed between pairs of cells.
//!
//! The router asks for a path between the same two cells again and again
//! while it backtracks. The cache keeps every path computed for a pair and
//! hands out the shortest that the obstacles of the moment still allow; only
//! where none is left does it run a new search.

use std::collections::HashMap;
use std::collections::VecDeque;
use vstd::prelude::*;
use crate::layout::display::Position;
use crate::layout::path_conversion::is_unit_path;

verus! {

/// A source of paths under obstacles that may change between searches.
///
/// `model` is what the contracts know of a creator, and the three functions
/// on it say what an implementation does: which path a search returns, what
/// it leaves behind and which paths the obstacles allow. The bodies given
/// here describe a creator that never finds a path.
pub trait PathCreator: Sized {
    /// What the contracts know of a creator.
    type Model;

    /// What the contracts know of this creator.
    open spec fn model(&self) -> Self::Model {
        arbitrary()
    }

    /// The path that a search from `start` to `end` returns.
    open spec fn spec_new_path(model: Self::Model, start: Position, end: Position) -> Option<
        Seq<Position>,
    > {
        None
    }

    /// What a search from `start` to `end` leaves behind.
    open spec fn spec_after_search(model: Self::Model, start: Position, end: Position) -> Self::Model {
        model
    }

    /// Whether the obstacles allow a path.
    open spec fn spec_is_valid_path(model: Self::Model, path: Seq<Position>) -> bool {
        true
    }

    /// Searches a path from `start` to `end`. A path that is found leads
    /// from `start` to `end` by unit steps.
    fn calculate_new_path(&mut self, start: Position, end: Position) -> (path: Option<
        VecDeque<Position>,
    >)
        ensures
            final(self).model() == Self::spec_after_search(old(self).model(), start, end),
            route_is(path, Self::spec_new_path(old(self).model(), start, end)),
            path.is_some() ==> is_path_between(path.unwrap()@, start, end),
    ;

    /// Whether the obstacles of the moment allow a path.
    fn is_valid_path(&self, path: &VecDeque<Position>) -> (ok: bool)
        ensures
            ok == Self::spec_is_valid_path(self.model(), path@),
    ;
}

/// A path leads from `start` to `end` by unit steps.
pub open spec fn is_path_between(path: Seq<Position>, start: Position, end: Position) -> bool {
    &&& path.len() >= 1
    &&& path[0] == start
    &&& path.last() == end
    &&& is_unit_path(path)
}

/// Whether a path is the one that a search result stands for.
pub open spec fn route_is(found: Option<VecDeque<Position>>, route: Option<Seq<Position>>) -> bool {
    match found {
        Some(path) => route == Some(path@),
        None => route.is_none(),
    }
}

/// What the cache holds: for every pair of a start and an end cell the
/// paths computed for it, oldest first.
pub type Cache = Map<(Position, Position), Seq<Seq<Position>>>;

/// The cache of computed paths.
pub struct PathMemoizer {
    paths: HashMap<u128, Vec<VecDeque<Position>>>,
}

/// The number under which the paths of a pair are filed: the four
/// coordinates side by side, 32 bits each.
pub open spec fn spec_pair_key(start: Position, end: Position) -> u128 {
    (start.x * 0x1_0000_0000_0000_0000_0000_0000 + start.y * 0x1_0000_0000_0000_0000 + end.x
        * 0x1_0000_0000 + end.y) as u128
}

/// The cell sequences of a list of paths.
pub open spec fn path_views(paths: Seq<VecDeque<Position>>) -> Seq<Seq<Position>> {
    Seq::new(paths.len(), |i: int| paths[i]@)
}

/// A cache that holds no path.
pub open spec fn spec_empty_cache() -> Cache {
    Map::total(|pair: (Position, Position)| Seq::<Seq<Position>>::empty())
}

/// Every path that a cache holds leads from the start to the end of the
/// pair that it is filed for, by unit steps.
pub open spec fn cache_is_sound(cache: Cache) -> bool {
    forall|start: Position, end: Position, i: int|
        0 <= i < cache[(start, end)].len() ==> is_path_between(
            #[trigger] cache[(start, end)][i],
            start,
            end,
        )
}

/// The better of the pick so far and the path at index `at`: a valid path
/// takes the place of no pick, and of a pick that is longer.
pub open spec fn spec_pick_step<PC: PathCreator>(
    paths: Seq<Seq<Position>>,
    model: PC::Model,
    so_far: Option<int>,
    at: int,
) -> Option<int> {
    match so_far {
        None => if PC::spec_is_valid_path(model, paths[at]) {
            Some(at)
        } else {
            None
        },
        Some(best) => if paths[at].len() < paths[best].len() && PC::spec_is_valid_path(
            model,
            paths[at],
        ) {
            Some(at)
        } else {
            Some(best)
        },
    }
}

/// The index of the path that a lookup picks among the first `upto` of a
/// pair's paths: the shortest that is valid, the oldest among equals.
pub open spec fn spec_pick<PC: PathCreator>(
    paths: Seq<Seq<Position>>,
    model: PC::Model,
    upto: int,
) -> Option<int>
    decreases upto,
{
    if upto <= 0 {
        None
    } else {
        spec_pick_step::<PC>(paths, model, spec_pick::<PC>(paths, model, upto - 1), upto - 1)
    }
}

/// The outcome of a request: the path handed out, what the cache holds
/// afterwards and what is known of the creator afterwards.
pub struct Lookup<M> {
    pub path: Option<Seq<Position>>,
    pub cache: Cache,
    pub creator: M,
}

/// A request for a path from `start` to `end`. Where the cache holds a valid
/// path for the pair, the pick among them is handed out and nothing changes.
/// Otherwise the creator searches, and a path that it finds is filed.
pub open spec fn spec_get_path<PC: PathCreator>(
    cache: Cache,
    model: PC::Model,
    start: Position,
    end: Position,
) -> Lookup<PC::Model> {
    let known = cache[(start, end)];
    match spec_pick::<PC>(known, model, known.len() as int) {
        Some(at) => Lookup { path: Some(known[at]), cache: cache, creator: model },
        None => spec_get_new_path::<PC>(cache, model, start, end),
    }
}

/// A search for a path from `start` to `end`, whatever the cache holds: a
/// path that the creator finds is filed.
pub open spec fn spec_get_new_path<PC: PathCreator>(
    cache: Cache,
    model: PC::Model,
    start: Position,
    end: Position,
) -> Lookup<PC::Model> {
    let found = PC::spec_new_path(model, start, end);
    Lookup {
        path: found,
        cache: match found {
            Some(path) => cache.insert((start, end), cache[(start, end)].push(path)),
            None => cache,
        },
        creator: PC::spec_after_search(model, start, end),
    }
}

/// How far a comparison of candidate pairs has come: the index of the best
/// pair and the length of its path, what the cache holds and what is known
/// of the creator.
pub struct Scan<M> {
    pub best: Option<(int, nat)>,
    pub cache: Cache,
    pub creator: M,
}

/// The comparison of the first `upto` candidate pairs: a path is requested
/// for each in turn, and a pair becomes the best when it is the first with a
/// path or its path is shorter than that of the best so far.
pub open spec fn spec_scan<PC: PathCreator>(
    cache: Cache,
    model: PC::Model,
    positions: Seq<(Position, Position)>,
    upto: int,
) -> Scan<PC::Model>
    decreases upto,
{
    if upto <= 0 {
        Scan { best: None, cache: cache, creator: model }
    } else {
        let before = spec_scan::<PC>(cache, model, positions, upto - 1);
        let pair = positions[upto - 1];
        let got = spec_get_path::<PC>(before.cache, before.creator, pair.0, pair.1);
        Scan {
            best: match got.path {
                Some(path) => match before.best {
                    Some((_, length)) => if length > path.len() {
                        Some((upto - 1, path.len()))
                    } else {
                        before.best
                    },
                    None => Some((upto - 1, path.len())),
                },
                None => before.best,
            },
            cache: got.cache,
            creator: got.creator,
        }
    }
}

/// A request for the shortest path among candidate pairs: every pair is
/// compared, then the path of the best pair is requested once more.
pub open spec fn spec_get_shortest_option<PC: PathCreator>(
    cache: Cache,
    model: PC::Model,
    positions: Seq<(Position, Position)>,
) -> Lookup<PC::Model> {
    let scanned = spec_scan::<PC>(cache, model, positions, positions.len() as int);
    match scanned.best {
        Some((at, _)) => spec_get_path::<PC>(
            scanned.cache,
            scanned.creator,
            positions[at].0,
            positions[at].1,
        ),
        None => Lookup { path: None, cache: scanned.cache, creator: scanned.creator },
    }
}

/// Whether a path is new and short: there is no old shortest path, or the
/// old one is longer.
pub open spec fn spec_is_new_short_path(path: Seq<Position>, old_shortest: Option<Seq<Position>>) -> bool {
    match old_shortest {
        Some(short) => short.len() > path.len(),
        None => true,
    }
}

/// The path that a lookup picks is valid, and no valid path among those
/// looked at is shorter.
pub proof fn lemma_pick_is_shortest_valid<PC: PathCreator>(
    paths: Seq<Seq<Position>>,
    model: PC::Model,
    upto: int,
)
    requires
        upto <= paths.len(),
    ensures
        match spec_pick::<PC>(paths, model, upto) {
            Some(at) => {
                &&& 0 <= at < upto
                &&& PC::spec_is_valid_path(model, paths[at])
                &&& forall|i: int|
                    0 <= i < upto && PC::spec_is_valid_path(model, #[trigger] paths[i])
                        ==> paths[at].len() <= paths[i].len()
            },
            None => forall|i: int| 0 <= i < upto ==> !PC::spec_is_valid_path(model, #[trigger] paths[i]),
        },
    decreases upto,
{
    if upto > 0 {
        lemma_pick_is_shortest_valid::<PC>(paths, model, upto - 1);
    }
}

/// A path that has been handed out is handed out again or bettered without
/// a search while the obstacles allow it: where a request yields a path and
/// the creator, as the request leaves it, finds that path valid, a second
/// request for the same pair changes neither the cache nor the creator, and
/// it yields a valid path that is no longer than the first.
pub proof fn lemma_second_request_needs_no_search<PC: PathCreator>(
    cache: Cache,
    model: PC::Model,
    start: Position,
    end: Position,
)
    requires
        spec_get_path::<PC>(cache, model, start, end).path.is_some(),
        PC::spec_is_valid_path(
            spec_get_path::<PC>(cache, model, start, end).creator,
            spec_get_path::<PC>(cache, model, start, end).path.unwrap(),
        ),
    ensures
        ({
            let first = spec_get_path::<PC>(cache, model, start, end);
            let second = spec_get_path::<PC>(first.cache, first.creator, start, end);
            &&& second.cache == first.cache
            &&& second.creator == first.creator
            &&& second.path.is_some()
            &&& second.path.unwrap().len() <= first.path.unwrap().len()
            &&& PC::spec_is_valid_path(first.creator, second.path.unwrap())
        }),
{
    let first = spec_get_path::<PC>(cache, model, start, end);
    let path = first.path.unwrap();
    let known = cache[(start, end)];
    let kept = first.cache[(start, end)];
    lemma_pick_is_shortest_valid::<PC>(known, model, known.len() as int);
    match spec_pick::<PC>(known, model, known.len() as int) {
        Some(at) => {
            assert(kept[at] == path);
        },
        None => {
            assert(kept == known.push(path));
            assert(kept[known.len() as int] == path);
        },
    }
    lemma_pick_is_shortest_valid::<PC>(kept, first.creator, kept.len() as int);
}

/// Two pairs of cells are filed under the same number only if they are the
/// same pair.
pub proof fn lemma_pair_key_is_injective(a: Position, b: Position, c: Position, d: Position)
    requires
        spec_pair_key(a, b) == spec_pair_key(c, d),
    ensures
        a == c,
        b == d,
{
    let high_a = a.x * 0x1_0000_0000 + a.y;
    let high_c = c.x * 0x1_0000_0000 + c.y;
    let mid_a = high_a * 0x1_0000_0000 + b.x;
    let mid_c = high_c * 0x1_0000_0000 + d.x;
    assert(spec_pair_key(a, b) == mid_a * 0x1_0000_0000 + b.y);
    assert(spec_pair_key(c, d) == mid_c * 0x1_0000_0000 + d.y);
    lemma_same_digits(mid_a, b.y as int, mid_c, d.y as int);
    lemma_same_digits(high_a, b.x as int, high_c, d.x as int);
    lemma_same_digits(a.x as int, a.y as int, c.x as int, c.y as int);
}

/// A number written as a high part and a digit of 32 bits has only one
/// such writing.
proof fn lemma_same_digits(high: int, low: int, other_high: int, other_low: int)
    requires
        0 <= low < 0x1_0000_0000,
        0 <= other_low < 0x1_0000_0000,
        high * 0x1_0000_0000 + low == other_high * 0x1_0000_0000 + other_low,
    ensures
        high == other_high,
        low == other_low,
{
}

impl View for PathMemoizer {
    type V = Cache;

    closed spec fn view(&self) -> Cache {
        Map::total(
            |pair: (Position, Position)|
                if self.paths@.contains_key(spec_pair_key(pair.0, pair.1)) {
                    path_views(self.paths@[spec_pair_key(pair.0, pair.1)]@)
                } else {
                    Seq::empty()
                },
        )
    }
}

/// The number under which the paths of a pair are filed.
fn pair_key(start: Position, end: Position) -> (key: u128)
    ensures
        key == spec_pair_key(start, end),
{
    start.x as u128 * 0x1_0000_0000_0000_0000_0000_0000 + start.y as u128
        * 0x1_0000_0000_0000_0000 + end.x as u128 * 0x1_0000_0000 + end.y as u128
}

/// A copy of a path.
pub fn copy_path(path: &VecDeque<Position>) -> (copy: VecDeque<Position>)
    ensures
        copy@ == path@,
{
    let copy = path.clone();
    assert(copy@ =~= path@);
    copy
}

impl PathMemoizer {
    /// Every path that the cache files for a pair leads from the start to
    /// the end of the pair by unit steps.
    pub open spec fn wf(&self) -> bool {
        cache_is_sound(self@)
    }

    /// A cache that holds no path.
    pub fn new() -> (memoizer: PathMemoizer)
        ensures
            memoizer.wf(),
            memoizer@ == spec_empty_cache(),
    {
        let memoizer = PathMemoizer { paths: HashMap::new() };
        assert(memoizer@ =~= spec_empty_cache());
        memoizer
    }

    /// The shortest path among those of the candidate pairs.
    ///
    /// A path is requested for every pair as `get_path` does it, so paths
    /// that the cache lacks are searched and filed. The first pair with the
    /// shortest path wins, and its path is requested once more and handed
    /// out. `None` says that no pair has a path.
    pub fn get_shortest_option<PC: PathCreator>(
        &mut self,
        positions: Vec<(Position, Position)>,
        creator: &mut PC,
    ) -> (path: Option<VecDeque<Position>>)
        requires
            old(self).wf(),
        ensures
            final(self).wf(),
            route_is(
                path,
                spec_get_shortest_option::<PC>(old(self)@, old(creator).model(), positions@).path,
            ),
            final(self)@ == spec_get_shortest_option::<PC>(
                old(self)@,
                old(creator).model(),
                positions@,
            ).cache,
            final(creator).model() == spec_get_shortest_option::<PC>(
                old(self)@,
                old(creator).model(),
                positions@,
            ).creator,
            path.is_some() ==> exists|at: int|
                0 <= at < positions@.len() && is_path_between(
                    path.unwrap()@,
                    (#[trigger] positions@[at]).0,
                    positions@[at].1,
                ),
    {
        let mut shortest_path_pos: Option<(Position, Position)> = None;
        let mut short_path_len: usize = 0;
        let mut at: usize = 0;
        while at < positions.len()
            invariant
                at <= positions@.len(),
                self.wf(),
                ({
                    let scanned = spec_scan::<PC>(
                        old(self)@,
                        old(creator).model(),
                        positions@,
                        at as int,
                    );
                    &&& self@ == scanned.cache
                    &&& creator.model() == scanned.creator
                    &&& match shortest_path_pos {
                        Some(pair) => scanned.best.is_some() && 0 <= scanned.best.unwrap().0 < at
                            && pair == positions@[scanned.best.unwrap().0]
                            && short_path_len == scanned.best.unwrap().1,
                        None => scanned.best.is_none(),
                    }
                }),
            decreases positions.len() - at,
        {
            let pos = positions[at];
            let path = self.get_path(pos.0, pos.1, creator);
            if let Some(new_path) = path {
                if let Some(_) = shortest_path_pos {
                    if short_path_len > new_path.len() {
                        shortest_path_pos = Some(pos);
                        short_path_len = new_path.len();
                    }
                } else {
                    shortest_path_pos = Some(pos);
                    short_path_len = new_path.len();
                }
            }
            at = at + 1;
        }
        match shortest_path_pos {
            Some((start, end)) => self.get_path(start, end, creator),
            None => None,
        }
    }

    /// The path from `start` to `end`.
    ///
    /// Where the cache holds paths for the pair that the creator still finds
    /// valid, the shortest of them is handed out, the oldest among equals,
    /// and neither the cache nor the creator changes: no search runs.
    /// Otherwise the creator searches; a path that it finds is filed and
    /// handed out, and `None` says that it found none.
    pub fn get_path<PC: PathCreator>(&mut self, start: Position, end: Position, creator: &mut PC) -> (path:
        Option<VecDeque<Position>>)
        requires
            old(self).wf(),
        ensures
            final(self).wf(),
            route_is(path, spec_get_path::<PC>(old(self)@, old(creator).model(), start, end).path),
            final(self)@ == spec_get_path::<PC>(old(self)@, old(creator).model(), start, end).cache,
            final(creator).model() == spec_get_path::<PC>(
                old(self)@,
                old(creator).model(),
                start,
                end,
            ).creator,
            path.is_some() ==> is_path_between(path.unwrap()@, start, end),
            spec_pick::<PC>(
                old(self)@[(start, end)],
                old(creator).model(),
                old(self)@[(start, end)].len() as int,
            ).is_some() ==> *final(self) == *old(self) && *final(creator) == *old(creator),
    {
        let key = pair_key(start, end);
        let path_vec: &Vec<VecDeque<Position>> = match self.paths.get(&key) {
            Some(known) => known,
            None => {
                return self.get_new_path(start, end, creator);
            },
        };
        let ghost known = path_views(path_vec@);
        assert(known == self@[(start, end)]);
        let mut short_index: Option<usize> = None;
        let mut short_len: usize = 0;
        let mut at: usize = 0;
        while at < path_vec.len()
            invariant
                at <= path_vec@.len(),
                known == path_views(path_vec@),
                match spec_pick::<PC>(known, creator.model(), at as int) {
                    Some(best) => 0 <= best < at && short_index == Some(best as usize)
                        && short_len == known[best].len(),
                    None => short_index.is_none(),
                },
            decreases path_vec.len() - at,
        {
            let path = &path_vec[at];
            assert(known[at as int] == path@);
            if short_index.is_none() {
                if creator.is_valid_path(path) {
                    short_index = Some(at);
                    short_len = path.len();
                }
            } else {
                if path.len() < short_len && creator.is_valid_path(path) {
                    short_index = Some(at);
                    short_len = path.len();
                }
            }
            at = at + 1;
        }
        match short_index {
            Some(best) => {
                assert(is_path_between(self@[(start, end)][best as int], start, end));
                Some(copy_path(&path_vec[best]))
            },
            None => self.get_new_path(start, end, creator),
        }
    }

    /// Searches a new path from `start` to `end`, whatever the cache holds,
    /// files it and hands it out. `None` says that the creator found none.
    pub fn get_new_path<PC: PathCreator>(&mut self, start: Position, end: Position, creator: &mut PC) -> (path:
        Option<VecDeque<Position>>)
        requires
            old(self).wf(),
        ensures
            final(self).wf(),
            route_is(
                path,
                spec_get_new_path::<PC>(old(self)@, old(creator).model(), start, end).path,
            ),
            final(self)@ == spec_get_new_path::<PC>(
                old(self)@,
                old(creator).model(),
                start,
                end,
            ).cache,
            final(creator).model() == spec_get_new_path::<PC>(
                old(self)@,
                old(creator).model(),
                start,
                end,
            ).creator,
            path.is_some() ==> is_path_between(path.unwrap()@, start, end),
    {
        let new_path = creator.calculate_new_path(start, end);
        match new_path {
            Some(path) => {
                let key = pair_key(start, end);
                let mut path_vec: Vec<VecDeque<Position>> = match self.paths.remove(&key) {
                    Some(known) => known,
                    None => Vec::new(),
                };
                let ghost known = path_vec@;
                path_vec.push(copy_path(&path));
                self.paths.insert(key, path_vec);
                proof {
                    let after = old(self)@.insert(
                        (start, end),
                        old(self)@[(start, end)].push(path@),
                    );
                    assert(path_views(known.push(path)) =~= path_views(known).push(path@));
                    assert forall|pair: (Position, Position)| self@[pair] == after[pair] by {
                        if pair != (start, end) {
                            if spec_pair_key(pair.0, pair.1) == key {
                                lemma_pair_key_is_injective(pair.0, pair.1, start, end);
                            }
                        }
                    }
                    assert(self@ =~= after);
                    assert forall|s: Position, e: Position, i: int|
                        0 <= i < after[(s, e)].len() implies is_path_between(
                        #[trigger] after[(s, e)][i],
                        s,
                        e,
                    ) by {
                        if (s, e) == (start, end) && i == old(self)@[(start, end)].len() {
                        } else {
                            assert(after[(s, e)][i] == old(self)@[(s, e)][i]);
                        }
                    }
                }
                Some(path)
            },
            None => None,
        }
    }
}

/// Whether a path is new and short: there is no old shortest path, or the
/// old one is longer.
pub fn is_new_short_path(path: &VecDeque<Position>, old_shortest: Option<&VecDeque<Position>>) -> (fresh:
    bool)
    ensures
        fresh == spec_is_new_short_path(
            path@,
            match old_shortest {
                Some(short) => Some(short@),
                None => None,
            },
        ),
{
    match old_shortest {
        Some(short) => short.len() > path.len(),
        None => true,
    }
}

} // verus!
