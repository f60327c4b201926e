//! The tile cache: recently fetched tiles by address, the least recently used
//! dropped first. And the decisions on the way to a tile: memory, disk, network.

use std::collections::VecDeque;
use vstd::hash_map::StringHashMap;
use vstd::prelude::*;
use vstd::string::StrSliceExecFns;

use crate::basemap::map_url;
use crate::geo::TileCoord;
use crate::text::{decimal, decimal_is_faithful, is_digit, lemma_digits_only, lemma_trim, same_text};

verus! {

/// `bytes::Bytes`: a run of bytes that is cheap to clone.
#[verifier::external_type_specification]
#[verifier::external_body]
pub struct ExBytes(bytes::Bytes);

/// The bytes that a `Bytes` holds.
pub uninterp spec fn content(b: bytes::Bytes) -> Seq<u8>;

/// `bytes::Bytes::clone`: holds the same bytes.
#[verifier::external_body]
fn clone_bytes(b: &bytes::Bytes) -> (c: bytes::Bytes)
    ensures
        content(c) == content(*b),
{
    b.clone()
}

/// `bytes::Bytes::is_empty`: whether there are no bytes.
#[verifier::external_body]
fn bytes_empty(b: &bytes::Bytes) -> (empty: bool)
    ensures
        empty == (content(*b).len() == 0),
{
    b.is_empty()
}

/// What a [`TileCache`] holds.
pub struct CacheModel {
    /// The addresses, least recently used first.
    pub order: Seq<Seq<char>>,
    /// The tile at each address.
    pub tiles: Map<Seq<char>, Seq<u8>>,
    /// The most tiles that are kept.
    pub capacity: nat,
    /// Lookups that found their tile.
    pub hits: nat,
    /// Lookups that did not.
    pub misses: nat,
}

/// The addresses when `url` has just been used: it moves to the end.
pub open spec fn used(order: Seq<Seq<char>>, url: Seq<char>) -> Seq<Seq<char>> {
    if order.contains(url) {
        order.remove(order.index_of(url)).push(url)
    } else {
        order
    }
}

impl CacheModel {
    /// Each tile stands in the order once, and there are not too many.
    pub open spec fn valid(self) -> bool {
        &&& self.order.no_duplicates()
        &&& self.tiles.dom() == self.order.to_set()
        &&& self.order.len() <= self.capacity
        &&& 1 <= self.capacity
    }

    /// After the tile at `url` has been asked for.
    pub open spec fn got(self, url: Seq<char>) -> CacheModel {
        CacheModel { order: used(self.order, url), ..self }
    }

    /// After `bytes` has been put at `url`: a tile that was there is replaced;
    /// otherwise it is added, and the least recently used tile goes if there
    /// is no room.
    pub open spec fn put(self, url: Seq<char>, bytes: Seq<u8>) -> CacheModel {
        let tiles = self.tiles.insert(url, bytes);
        if self.order.contains(url) {
            CacheModel { order: used(self.order, url), tiles, ..self }
        } else if self.order.len() < self.capacity {
            CacheModel { order: self.order.push(url), tiles, ..self }
        } else {
            CacheModel {
                order: self.order.drop_first().push(url),
                tiles: tiles.remove(self.order[0]),
                ..self
            }
        }
    }

    /// After the outcome of a lookup has been counted.
    pub open spec fn counted(self, hit: bool) -> CacheModel {
        if hit {
            CacheModel { hits: self.hits + 1, ..self }
        } else {
            CacheModel { misses: self.misses + 1, ..self }
        }
    }
}

/// A cache of tiles by address, of limited capacity.
pub struct TileCache {
    map: StringHashMap<bytes::Bytes>,
    /// The addresses, least recently used first.
    order: VecDeque<String>,
    capacity: usize,
    hits: u64,
    misses: u64,
}

spec fn texts(order: Seq<String>) -> Seq<Seq<char>> {
    order.map_values(|s: String| s@)
}

spec fn contents(map: Map<Seq<char>, bytes::Bytes>) -> Map<Seq<char>, Seq<u8>> {
    map.map_values(|b: bytes::Bytes| content(b))
}

impl View for TileCache {
    type V = CacheModel;

    closed spec fn view(&self) -> CacheModel {
        CacheModel {
            order: texts(self.order@),
            tiles: contents(self.map@),
            capacity: self.capacity as nat,
            hits: self.hits as nat,
            misses: self.misses as nat,
        }
    }
}

/// Moving an address to the end keeps the set of addresses, and each once.
proof fn lemma_used(order: Seq<Seq<char>>, url: Seq<char>)
    requires
        order.no_duplicates(),
    ensures
        used(order, url).no_duplicates(),
        used(order, url).to_set() == order.to_set(),
        used(order, url).len() == order.len(),
{
    if order.contains(url) {
        let i = order.index_of(url);
        let after = used(order, url);
        assert(order[i] == url);
        assert forall|u: Seq<char>| after.to_set().contains(u) <==> order.to_set().contains(u) by {
            if order.contains(u) {
                let k = choose|k: int| 0 <= k < order.len() && order[k] == u;
                if k < i {
                    assert(after[k] == u);
                } else if k > i {
                    assert(after[k - 1] == u);
                } else {
                    assert(after[after.len() - 1] == u);
                }
            }
            if after.contains(u) {
                let k = choose|k: int| 0 <= k < after.len() && after[k] == u;
                if k == after.len() - 1 {
                    assert(order[i] == u);
                } else if k < i {
                    assert(order[k] == u);
                } else {
                    assert(order[k + 1] == u);
                }
            }
        }
        assert(after.to_set() =~= order.to_set());
    }
}

/// Putting a tile keeps the cache valid.
proof fn lemma_put(m: CacheModel, url: Seq<char>, bytes: Seq<u8>)
    requires
        m.valid(),
    ensures
        m.put(url, bytes).valid(),
{
    let after = m.put(url, bytes);
    if m.order.contains(url) {
        lemma_used(m.order, url);
        assert(after.tiles.dom() =~= after.order.to_set());
    } else if m.order.len() < m.capacity {
        let longer = m.order.push(url);
        assert forall|u: Seq<char>| after.tiles.dom().contains(u) <==> longer.to_set().contains(u) by {
            if m.order.contains(u) {
                let k = choose|k: int| 0 <= k < m.order.len() && m.order[k] == u;
                assert(longer[k] == u);
            }
            assert(longer[m.order.len() as int] == url);
            if longer.contains(u) && u != url {
                let k = choose|k: int| 0 <= k < longer.len() && longer[k] == u;
                assert(m.order[k] == u);
            }
        }
        assert(after.tiles.dom() =~= longer.to_set());
    } else {
        let longer = m.order.drop_first().push(url);
        assert(m.order.contains(m.order[0]));
        assert forall|u: Seq<char>| after.tiles.dom().contains(u) <==> longer.to_set().contains(u) by {
            if m.order.contains(u) && u != m.order[0] {
                let k = choose|k: int| 0 <= k < m.order.len() && m.order[k] == u;
                assert(longer[k - 1] == u);
            }
            assert(longer[longer.len() - 1] == url);
            if longer.contains(u) && u != url {
                let k = choose|k: int| 0 <= k < longer.len() && longer[k] == u;
                assert(m.order[k + 1] == u);
            }
        }
        assert(after.tiles.dom() =~= longer.to_set());
    }
}

impl TileCache {
    /// An empty cache for `capacity` tiles, at least one.
    pub fn new(capacity: usize) -> (c: TileCache)
        ensures
            c@.valid(),
            c@.order == Seq::<Seq<char>>::empty(),
            c@.tiles == Map::<Seq<char>, Seq<u8>>::empty(),
            c@.capacity == if capacity == 0 {
                1
            } else {
                capacity as nat
            },
            c@.hits == 0,
            c@.misses == 0,
    {
        let map: StringHashMap<bytes::Bytes> = StringHashMap::new();
        let order: VecDeque<String> = VecDeque::new();
        let capacity: usize = if capacity == 0 { 1 } else { capacity };
        proof {
            assert(texts(order@) =~= Seq::<Seq<char>>::empty());
            assert(contents(map@) =~= Map::<Seq<char>, Seq<u8>>::empty());
            assert(contents(map@).dom() =~= texts(order@).to_set());
        }
        TileCache { map, order, capacity, hits: 0, misses: 0 }
    }

    /// The tile at an address, which becomes the most recently used.
    pub fn get(&mut self, url: &str) -> (tile: Option<bytes::Bytes>)
        requires
            old(self)@.valid(),
        ensures
            final(self)@.valid(),
            final(self)@ == old(self)@.got(url@),
            tile is Some <==> old(self)@.tiles.contains_key(url@),
            tile matches Some(b) ==> content(b) == old(self)@.tiles[url@],
    {
        let found = match self.map.get(url) {
            Some(b) => Some(clone_bytes(b)),
            None => None,
        };
        proof {
            assert(self@.tiles.contains_key(url@) == self.map@.contains_key(url@));
            assert(self@.tiles.contains_key(url@) == self@.order.to_set().contains(url@));
        }
        match found {
            Some(b) => {
                self.touch(url);
                Some(b)
            },
            None => None,
        }
    }

    /// Puts a tile at an address. When the cache is full and the address is
    /// new, the least recently used tile is dropped.
    pub fn put(&mut self, url: String, tile: bytes::Bytes)
        requires
            old(self)@.valid(),
        ensures
            final(self)@.valid(),
            final(self)@ == old(self)@.put(url@, content(tile)),
    {
        let ghost before = *self;
        let ghost (key, bytes) = (url@, content(tile));
        proof {
            lemma_put(before@, key, bytes);
            assert(before@.tiles.contains_key(key) == before@.order.to_set().contains(key));
            assert(contents(before.map@.insert(key, tile)) =~= contents(before.map@).insert(
                key,
                bytes,
            ));
        }
        if self.map.contains_key(url.as_str()) {
            self.map.insert(url.clone(), tile);
            proof {
                assert(self@.tiles.dom() =~= self@.order.to_set());
            }
            self.touch(url.as_str());
            return ;
        }
        self.map.insert(url.clone(), tile);
        self.order.push_back(url);
        proof {
            assert(texts(self.order@) =~= texts(before.order@).push(key));
        }
        if self.order.len() > self.capacity {
            if let Some(oldest) = self.order.pop_front() {
                self.map.remove(oldest.as_str());
                proof {
                    assert(oldest@ == texts(before.order@)[0]);
                    assert(texts(self.order@) =~= texts(before.order@).drop_first().push(key));
                    assert(contents(self.map@) =~= contents(before.map@).insert(key, bytes).remove(
                        oldest@,
                    ));
                }
            }
        }
    }

    /// How many tiles are kept.
    pub fn len(&self) -> (n: usize)
        requires
            self@.valid(),
        ensures
            n == self@.order.len(),
    {
        proof {
            lemma_count(*self);
        }
        self.map.len()
    }

    /// Whether no tile is kept.
    pub fn is_empty(&self) -> (empty: bool)
        requires
            self@.valid(),
        ensures
            empty == (self@.order.len() == 0),
    {
        proof {
            lemma_count(*self);
        }
        self.map.is_empty()
    }

    /// Counts a lookup that found its tile.
    pub fn record_hit(&mut self)
        requires
            old(self)@.hits < u64::MAX,
        ensures
            final(self)@ == old(self)@.counted(true),
    {
        self.hits = self.hits + 1;
    }

    /// Counts a lookup that did not find its tile.
    pub fn record_miss(&mut self)
        requires
            old(self)@.misses < u64::MAX,
        ensures
            final(self)@ == old(self)@.counted(false),
    {
        self.misses = self.misses + 1;
    }

    /// How many lookups found their tile, and how many did not.
    pub fn stats(&self) -> (s: (u64, u64))
        ensures
            s.0 == self@.hits,
            s.1 == self@.misses,
    {
        (self.hits, self.misses)
    }

    /// Makes an address the most recently used.
    fn touch(&mut self, url: &str)
        requires
            old(self)@.valid(),
        ensures
            final(self)@.valid(),
            final(self)@ == old(self)@.got(url@),
    {
        let ghost before = *self;
        let ghost order = texts(self.order@);
        proof {
            lemma_used(order, url@);
        }
        let mut i: usize = 0;
        while i < self.order.len()
            invariant
                i <= self.order@.len(),
                *self == before,
                before == *old(self),
                before@.valid(),
                order == texts(before.order@),
                used(order, url@).no_duplicates(),
                used(order, url@).to_set() == order.to_set(),
                used(order, url@).len() == order.len(),
                forall|k: int| 0 <= k < i ==> #[trigger] order[k] != url@,
            decreases self.order@.len() - i,
        {
            if same_text(self.order[i].as_str(), url) {
                proof {
                    assert(order[i as int] == url@);
                    assert(order.contains(url@));
                    assert(order.index_of(url@) == i);
                }
                if let Some(k) = self.order.remove(i) {
                    self.order.push_back(k);
                }
                proof {
                    assert(texts(self.order@) =~= used(order, url@));
                    assert(self@ == before@.got(url@));
                }
                return ;
            }
            i = i + 1;
        }
    }

    /// A lookup: the tile at an address, with its outcome counted.
    pub fn lookup(&mut self, url: &str) -> (tile: Option<bytes::Bytes>)
        requires
            old(self)@.valid(),
            old(self)@.hits < u64::MAX,
            old(self)@.misses < u64::MAX,
        ensures
            final(self)@.valid(),
            final(self)@ == old(self)@.got(url@).counted(old(self)@.tiles.contains_key(url@)),
            tile is Some <==> old(self)@.tiles.contains_key(url@),
            tile matches Some(b) ==> content(b) == old(self)@.tiles[url@],
    {
        match self.get(url) {
            Some(b) => {
                self.record_hit();
                Some(b)
            },
            None => {
                self.record_miss();
                None
            },
        }
    }

    /// Keeps what a server sent for an address, if it is a tile: the request
    /// succeeded, and the answer is not empty. Answers whether it was kept.
    pub fn keep_reply(&mut self, url: &str, success: bool, reply: &bytes::Bytes) -> (kept: bool)
        requires
            old(self)@.valid(),
        ensures
            final(self)@.valid(),
            kept == (success && content(*reply).len() > 0),
            final(self)@ == if kept {
                old(self)@.put(url@, content(*reply))
            } else {
                old(self)@
            },
    {
        if success && !bytes_empty(reply) {
            self.put(url.to_owned(), clone_bytes(reply));
            true
        } else {
            false
        }
    }
}

/// There are as many tiles as addresses in the order.
proof fn lemma_count(c: TileCache)
    requires
        c@.valid(),
    ensures
        c.map@.len() == c@.order.len(),
        c.map@.is_empty() == (c@.order.len() == 0),
{
    c@.order.unique_seq_to_set();
    assert(c.map@.dom() =~= c@.tiles.dom());
    if c@.order.len() > 0 {
        assert(c@.order.to_set().contains(c@.order[0]));
        assert(c.map@.dom().contains(c@.order[0]));
    } else {
        assert(c.map@.dom() =~= Set::<Seq<char>>::empty());
    }
}

/// What is put at an address is what is found there, and every other tile that
/// is still kept is as it was.
pub proof fn put_then_get(m: CacheModel, url: Seq<char>, bytes: Seq<u8>, other: Seq<char>)
    requires
        m.valid(),
    ensures
        m.put(url, bytes).valid(),
        m.put(url, bytes).tiles.contains_key(url),
        m.put(url, bytes).tiles[url] == bytes,
        other != url && m.put(url, bytes).tiles.contains_key(other) ==> m.tiles.contains_key(other)
            && m.put(url, bytes).tiles[other] == m.tiles[other],
{
    lemma_put(m, url, bytes);
    if !m.order.contains(url) && m.order.len() >= m.capacity {
        assert(m.order.contains(m.order[0]));
    }
}

/// Asking for a tile changes no tile, and makes it the last to be dropped.
pub proof fn get_only_reorders(m: CacheModel, url: Seq<char>)
    requires
        m.valid(),
    ensures
        m.got(url).valid(),
        m.got(url).tiles == m.tiles,
        m.order.contains(url) ==> m.got(url).order.last() == url,
{
    lemma_used(m.order, url);
}

/// Only the least recently used tile is ever dropped, only when the cache is
/// full, and only for a tile at a new address.
pub proof fn put_drops_the_oldest_only(
    m: CacheModel,
    url: Seq<char>,
    bytes: Seq<u8>,
    lost: Seq<char>,
)
    requires
        m.valid(),
        m.tiles.contains_key(lost),
        !m.put(url, bytes).tiles.contains_key(lost),
    ensures
        lost == m.order[0],
        m.order.len() == m.capacity,
        !m.tiles.contains_key(url),
{
    assert(m.order.to_set().contains(lost));
}

/// What a cache holds when the first `n` of several tiles have been put.
pub open spec fn put_all(m: CacheModel, list: Seq<(Seq<char>, Seq<u8>)>, n: nat) -> CacheModel
    decreases n,
{
    if n == 0 {
        m
    } else {
        put_all(m, list, (n - 1) as nat).put(list[n - 1].0, list[n - 1].1)
    }
}

/// Recent tiles survive: one that has just been used is still there after fewer
/// tiles than the cache has room for have been put.
pub proof fn recent_tiles_survive(
    m: CacheModel,
    url: Seq<char>,
    list: Seq<(Seq<char>, Seq<u8>)>,
    n: nat,
)
    requires
        m.valid(),
        m.order.len() > 0,
        m.order.last() == url,
        n <= list.len(),
        n < m.capacity,
    ensures
        put_all(m, list, n).tiles.contains_key(url),
{
    lemma_survives(m, url, list, n);
    let after = put_all(m, list, n);
    assert(after.order.to_set().contains(url));
}

proof fn lemma_survives(m: CacheModel, url: Seq<char>, list: Seq<(Seq<char>, Seq<u8>)>, n: nat)
    requires
        m.valid(),
        m.order.len() > 0,
        m.order.last() == url,
        n <= list.len(),
        n < m.capacity,
    ensures
        put_all(m, list, n).valid(),
        put_all(m, list, n).capacity == m.capacity,
        exists|j: int|
            0 <= j < put_all(m, list, n).order.len() && put_all(m, list, n).order.len() - 1 - n <= j
                && put_all(m, list, n).order[j] == url,
    decreases n,
{
    if n == 0 {
        assert(m.order[m.order.len() - 1] == url);
    } else {
        let k = (n - 1) as nat;
        lemma_survives(m, url, list, k);
        let before = put_all(m, list, k);
        let (u, b) = list[n - 1];
        lemma_put(before, u, b);
        let after = before.put(u, b);
        let j = choose|j: int|
            0 <= j < before.order.len() && before.order.len() - 1 - k <= j && before.order[j] == url;
        if before.order.contains(u) {
            let i = before.order.index_of(u);
            assert(before.order[i] == u);
            if i == j {
                assert(after.order[after.order.len() - 1] == url);
            } else if i < j {
                assert(after.order[j - 1] == url);
            } else {
                assert(after.order[j] == url);
            }
        } else if before.order.len() < before.capacity {
            assert(after.order[j] == url);
        } else {
            assert(after.order[j - 1] == url);
        }
    }
}

/// How old a tile on disk may be: seven days, in seconds.
pub const DISK_TTL_SECS: u64 = 604_800;

/// Whether a tile on disk is used. `age` is the time since it was written, in
/// seconds and nanoseconds; none if that lies in the future. `len` is its size.
pub fn disk_usable(age: Option<(u64, u32)>, len: u64) -> (usable: bool)
    ensures
        usable == (len > 0 && (age matches Some(a) && (a.0 < DISK_TTL_SECS || (a.0 == DISK_TTL_SECS
            && a.1 == 0)))),
{
    match age {
        Some((secs, nanos)) => len > 0 && (secs < DISK_TTL_SECS || (secs == DISK_TTL_SECS && nanos
            == 0)),
        None => false,
    }
}

/// What has just happened on the way to a tile.
#[derive(Clone, Copy, PartialEq, Eq, Debug, Structural)]
pub enum FetchEvent {
    /// Memory was asked for the tile.
    Memory { found: bool },
    /// Disk was asked for the tile.
    Disk { found: bool },
    /// A server answered.
    Reply { success: bool, empty: bool },
    /// No answer came from the server.
    NoReply,
}

/// What to do next on the way to a tile.
#[derive(Clone, Copy, PartialEq, Eq, Debug, Structural)]
pub enum FetchAction {
    /// Ask the disk.
    AskDisk,
    /// Ask the server.
    AskServer,
    /// Take what was found, after keeping it where it says.
    Take { keep_in_memory: bool, keep_on_disk: bool },
    /// There is nothing to take.
    GiveUp,
}

/// The next step on the way to a tile: memory first, then the disk where the
/// tile has a place on it, then the server. What the disk gives is kept in
/// memory, and a tile from the server is kept in both; an error page or an
/// empty answer is taken but not kept.
pub open spec fn next_step(on_disk: bool, event: FetchEvent) -> FetchAction {
    match event {
        FetchEvent::Memory { found: true } => FetchAction::Take {
            keep_in_memory: false,
            keep_on_disk: false,
        },
        FetchEvent::Memory { found: false } => if on_disk {
            FetchAction::AskDisk
        } else {
            FetchAction::AskServer
        },
        FetchEvent::Disk { found: true } => FetchAction::Take {
            keep_in_memory: true,
            keep_on_disk: false,
        },
        FetchEvent::Disk { found: false } => FetchAction::AskServer,
        FetchEvent::Reply { success, empty } => FetchAction::Take {
            keep_in_memory: success && !empty,
            keep_on_disk: success && !empty && on_disk,
        },
        FetchEvent::NoReply => FetchAction::GiveUp,
    }
}

/// The next step on the way to a tile, where `on_disk` says whether tiles of
/// this sort have a place on disk.
pub fn fetch_step(on_disk: bool, event: FetchEvent) -> (action: FetchAction)
    ensures
        action == next_step(on_disk, event),
{
    match event {
        FetchEvent::Memory { found } => {
            if found {
                FetchAction::Take { keep_in_memory: false, keep_on_disk: false }
            } else if on_disk {
                FetchAction::AskDisk
            } else {
                FetchAction::AskServer
            }
        },
        FetchEvent::Disk { found } => {
            if found {
                FetchAction::Take { keep_in_memory: true, keep_on_disk: false }
            } else {
                FetchAction::AskServer
            }
        },
        FetchEvent::Reply { success, empty } => {
            let tile: bool = success && !empty;
            FetchAction::Take { keep_in_memory: tile, keep_on_disk: tile && on_disk }
        },
        FetchEvent::NoReply => FetchAction::GiveUp,
    }
}

/// Tiles that have no place on disk never reach it, and nothing but a
/// successful, non-empty answer is ever written to it.
pub proof fn disk_gets_tiles_only(on_disk: bool, event: FetchEvent)
    ensures
        next_step(on_disk, event) matches FetchAction::Take { keep_on_disk: true, .. } ==> on_disk
            && event == (FetchEvent::Reply { success: true, empty: false }),
        !on_disk ==> next_step(on_disk, event) != FetchAction::AskDisk,
{
}

/// Where the last slash before `end` stands; -1 if there is none.
pub open spec fn last_slash(url: Seq<char>, end: int) -> int
    decreases end,
{
    if end <= 0 {
        -1
    } else if url[end - 1] == '/' {
        end - 1
    } else {
        last_slash(url, end - 1)
    }
}

/// A letter, a digit or a dot.
pub open spec fn plain_char(c: char) -> bool {
    ('a' <= c <= 'z') || ('A' <= c <= 'Z') || ('0' <= c <= '9') || c == '.'
}

/// Whether a text can name a file or a directory: not empty, of letters,
/// digits and dots, and without two dots in a row.
pub open spec fn safe_name(s: Seq<char>) -> bool {
    &&& s.len() > 0
    &&& forall|i: int| 0 <= i < s.len() ==> plain_char(#[trigger] s[i])
    &&& forall|i: int| 0 <= i && i + 1 < s.len() ==> !(#[trigger] s[i] == '.' && s[i + 1] == '.')
}

/// The last three parts of an address, between slashes.
pub open spec fn tail(url: Seq<char>) -> Option<(Seq<char>, Seq<char>, Seq<char>)> {
    let c = last_slash(url, url.len() as int);
    let b = last_slash(url, c);
    let a = last_slash(url, b);
    if c < 0 || b < 0 {
        None
    } else {
        Some(
            (
                url.subrange(a + 1, b),
                url.subrange(b + 1, c),
                url.subrange(c + 1, url.len() as int),
            ),
        )
    }
}

/// The names under which a tile is kept on disk: the last three parts of its
/// address, zoom, column and row; none unless all three can be names.
pub open spec fn disk_names(url: Seq<char>) -> Option<(Seq<char>, Seq<char>, Seq<char>)> {
    match tail(url) {
        Some((z, x, y)) if safe_name(z) && safe_name(x) && safe_name(y) => tail(url),
        _ => None,
    }
}

proof fn lemma_last_slash(url: Seq<char>, end: int)
    requires
        end <= url.len(),
    ensures
        -1 <= last_slash(url, end),
        last_slash(url, end) < end || last_slash(url, end) == -1,
        last_slash(url, end) >= 0 ==> url[last_slash(url, end)] == '/',
        forall|i: int| last_slash(url, end) < i < end && 0 <= i ==> #[trigger] url[i] != '/',
    decreases end,
{
    if end > 0 && url[end - 1] != '/' {
        lemma_last_slash(url, end - 1);
    }
}

/// The last slash before `end`, as its number plus one; 0 if there is none.
fn after_last_slash(url: &str, end: usize) -> (n: usize)
    requires
        end <= url@.len(),
    ensures
        n == last_slash(url@, end as int) + 1,
        n <= end,
{
    let mut i: usize = end;
    proof {
        lemma_last_slash(url@, end as int);
    }
    while i > 0
        invariant
            i <= end <= url@.len(),
            last_slash(url@, i as int) == last_slash(url@, end as int),
        decreases i,
    {
        if url.get_char(i - 1) == '/' {
            return i;
        }
        i = i - 1;
    }
    0
}

/// Whether a text can name a file or a directory.
pub fn safe_seg(s: &str) -> (safe: bool)
    ensures
        safe == safe_name(s@),
{
    let n: usize = s.unicode_len();
    if n == 0 {
        return false;
    }
    let mut dot: bool = false;
    let mut i: usize = 0;
    while i < n
        invariant
            i <= n,
            n == s@.len(),
            dot == (i > 0 && s@[i - 1] == '.'),
            forall|k: int| 0 <= k < i ==> plain_char(#[trigger] s@[k]),
            forall|k: int|
                0 <= k && k + 1 < i ==> !(#[trigger] s@[k] == '.' && s@[k + 1] == '.'),
        decreases n - i,
    {
        let c: char = s.get_char(i);
        let plain: bool = ('a' <= c && c <= 'z') || ('A' <= c && c <= 'Z') || ('0' <= c && c <= '9')
            || c == '.';
        if !plain {
            return false;
        }
        if dot && c == '.' {
            proof {
                assert(s@[i - 1] == '.' && s@[(i - 1) + 1] == '.');
            }
            return false;
        }
        dot = c == '.';
        i = i + 1;
    }
    true
}

/// The names under which a tile is kept on disk: directory, directory, file.
pub fn disk_segments<'a>(url: &'a str) -> (names: Option<(&'a str, &'a str, &'a str)>)
    ensures
        match names {
            Some((z, x, y)) => disk_names(url@) == Some((z@, x@, y@)),
            None => disk_names(url@) is None,
        },
{
    let n: usize = url.unicode_len();
    let c: usize = after_last_slash(url, n);
    if c == 0 {
        return None;
    }
    let b: usize = after_last_slash(url, c - 1);
    if b == 0 {
        return None;
    }
    let a: usize = after_last_slash(url, b - 1);
    let z = url.substring_char(a, b - 1);
    let x = url.substring_char(b, c - 1);
    let y = url.substring_char(c, n);
    if !safe_seg(z) || !safe_seg(x) || !safe_seg(y) {
        return None;
    }
    Some((z, x, y))
}

/// A tile never leaves its directory: none of the names on disk holds a slash,
/// and none is `..` or empty.
pub proof fn disk_names_stay_inside(url: Seq<char>)
    ensures
        disk_names(url) matches Some((z, x, y)) ==> {
            &&& !z.contains('/') && !x.contains('/') && !y.contains('/')
            &&& z != ".."@ && x != ".."@ && y != ".."@
            &&& z.len() > 0 && x.len() > 0 && y.len() > 0
        },
{
    reveal_strlit("..");
    assert(".."@[0] == '.' && ".."@[0int + 1] == '.');
    if let Some((z, x, y)) = disk_names(url) {
        assert(z.contains('/') ==> exists|i: int| 0 <= i < z.len() && plain_char(z[i]) && z[i] == '/');
        assert(x.contains('/') ==> exists|i: int| 0 <= i < x.len() && plain_char(x[i]) && x[i] == '/');
        assert(y.contains('/') ==> exists|i: int| 0 <= i < y.len() && plain_char(y[i]) && y[i] == '/');
    }
}

proof fn lemma_slash_at(url: Seq<char>, at: int, end: int)
    requires
        0 <= at < end <= url.len(),
        url[at] == '/',
        forall|i: int| at < i < end ==> #[trigger] url[i] != '/',
    ensures
        last_slash(url, end) == at,
    decreases end,
{
    if at < end - 1 {
        assert(url[end - 1] != '/');
        lemma_slash_at(url, at, end - 1);
    }
}

/// The three parts that end an address, none of them with a slash in it.
proof fn lemma_tail(head: Seq<char>, z: Seq<char>, x: Seq<char>, y: Seq<char>)
    requires
        head.len() > 0,
        head.last() == '/',
        !z.contains('/'),
        !x.contains('/'),
        !y.contains('/'),
    ensures
        tail(head + (z + "/"@ + (x + "/"@ + y))) == Some((z, x, y)),
{
    reveal_strlit("/");
    let url = head + (z + "/"@ + (x + "/"@ + y));
    let a = head.len() - 1;
    let b = (head.len() + z.len()) as int;
    let c = b + 1 + x.len();
    assert(url.len() == c + 1 + y.len());
    assert(url[a] == '/' && url[b] == '/' && url[c] == '/');
    assert forall|i: int| a < i < b implies #[trigger] url[i] != '/' by {
        assert(url[i] == z[i - a - 1]);
    }
    assert forall|i: int| b < i < c implies #[trigger] url[i] != '/' by {
        assert(url[i] == x[i - b - 1]);
    }
    assert forall|i: int| c < i < url.len() implies #[trigger] url[i] != '/' by {
        assert(url[i] == y[i - c - 1]);
    }
    lemma_slash_at(url, c, url.len() as int);
    lemma_slash_at(url, b, c);
    lemma_slash_at(url, a, b);
    assert(url.subrange(a + 1, b) =~= z);
    assert(url.subrange(b + 1, c) =~= x);
    assert(url.subrange(c + 1, url.len() as int) =~= y);
}

/// A number, and a number with one ending, can name files.
proof fn lemma_number_names(n: nat)
    ensures
        safe_name(decimal(n)),
        safe_name(decimal(n) + ".pbf"@),
        !(decimal(n) + ".pbf"@).contains('/'),
{
    reveal_strlit(".pbf");
    decimal_is_faithful(n, n);
    let d = decimal(n);
    let f = d + ".pbf"@;
    assert forall|i: int| 0 <= i < d.len() implies plain_char(#[trigger] d[i]) && d[i] != '.' by {
        assert(is_digit(d[i]));
    }
    assert forall|i: int| 0 <= i < f.len() implies plain_char(#[trigger] f[i]) && (f[i] == '.' <==> i
        == d.len()) by {
        if i < d.len() {
            assert(f[i] == d[i]);
        } else {
            assert(f[i] == ".pbf"@[i - d.len()]);
        }
    }
    assert forall|i: int| 0 <= i && i + 1 < f.len() implies !(#[trigger] f[i] == '.' && f[i + 1]
        == '.') by {
        assert(f[i + 1] == '.' ==> i + 1 == d.len());
    }
}

/// Every map tile has a place on disk: zoom and column name its directories,
/// and the row its file. So no two tiles share a file.
pub proof fn map_tiles_have_their_place(t: TileCoord, other: TileCoord)
    ensures
        disk_names(map_url(t)) == disk_names(map_url(other)) ==> t == other,
        disk_names(map_url(t)) == Some(
            (decimal(t.z as nat), decimal(t.x as nat), decimal(t.y as nat) + ".pbf"@),
        ),
{
    lemma_map_names(t);
    lemma_map_names(other);
    if disk_names(map_url(t)) == disk_names(map_url(other)) {
        lemma_trim(decimal(t.y as nat), decimal(other.y as nat), ".pbf"@);
        decimal_is_faithful(t.z as nat, other.z as nat);
        decimal_is_faithful(t.x as nat, other.x as nat);
        decimal_is_faithful(t.y as nat, other.y as nat);
    }
}

proof fn lemma_map_names(t: TileCoord)
    ensures
        disk_names(map_url(t)) == Some(
            (decimal(t.z as nat), decimal(t.x as nat), decimal(t.y as nat) + ".pbf"@),
        ),
{
    let head = "https://cyberjapandata.gsi.go.jp/xyz/experimental_bvmap/"@;
    assert(head.len() > 0 && head.last() == '/') by {
        reveal_strlit("https://cyberjapandata.gsi.go.jp/xyz/experimental_bvmap/");
    }
    lemma_number_names(t.z as nat);
    lemma_number_names(t.x as nat);
    lemma_number_names(t.y as nat);
    lemma_digits_only(t.z as nat);
    lemma_digits_only(t.x as nat);
    lemma_tail(head, decimal(t.z as nat), decimal(t.x as nat), decimal(t.y as nat) + ".pbf"@);
}

/// Using a tile leaves the others in their order: of two other tiles the one that
/// was used longer ago still comes first, and the tile itself comes last.
pub proof fn using_a_tile_keeps_the_others_in_order(order: Seq<Seq<char>>, url: Seq<char>, i: int, j: int)
    requires
        order.no_duplicates(),
        order.contains(url),
        0 <= i < j < order.len(),
        order[i] != url,
        order[j] != url,
    ensures
        used(order, url).len() == order.len(),
        used(order, url).last() == url,
        exists|p: int, q: int|
            0 <= p < q < order.len() - 1 && #[trigger] used(order, url)[p] == order[i]
                && #[trigger] used(order, url)[q] == order[j],
{
    let k = order.index_of(url);
    assert(order[k] == url);
    let after = used(order, url);
    let p = if i < k {
        i
    } else {
        i - 1
    };
    let q = if j < k {
        j
    } else {
        j - 1
    };
    assert(after[p] == order[i]);
    assert(after[q] == order[j]);
}

/// What is put comes last, and the cache grows by one for a tile at a new address
/// until it is full; then it stays full. The number of tiles that it has room for,
/// and what has been counted, stay.
pub proof fn putting_fills_the_cache(m: CacheModel, url: Seq<char>, bytes: Seq<u8>)
    requires
        m.valid(),
    ensures
        m.put(url, bytes).order.last() == url,
        m.put(url, bytes).order.len() == if m.tiles.contains_key(url) || m.order.len()
            == m.capacity {
            m.order.len()
        } else {
            m.order.len() + 1
        },
        m.put(url, bytes).capacity == m.capacity,
        m.put(url, bytes).hits == m.hits,
        m.put(url, bytes).misses == m.misses,
{
    lemma_used(m.order, url);
    assert(m.tiles.contains_key(url) <==> m.order.to_set().contains(url));
    assert(m.order.to_set().contains(url) <==> m.order.contains(url));
    if m.order.contains(url) {
        let k = m.order.index_of(url);
        assert(m.order[k] == url);
    }
}

/// Where there is no room, a tile at a new address takes the place of the one used
/// longest ago, and the others move up in their order.
pub proof fn full_caches_drop_from_the_front(m: CacheModel, url: Seq<char>, bytes: Seq<u8>, i: int)
    requires
        m.valid(),
        !m.tiles.contains_key(url),
        0 <= i < m.order.len(),
    ensures
        m.order.len() < m.capacity ==> m.put(url, bytes).order[i] == m.order[i],
        m.order.len() == m.capacity && i > 0 ==> m.put(url, bytes).order[i - 1] == m.order[i],
        m.order.len() == m.capacity ==> !m.put(url, bytes).tiles.contains_key(m.order[0]),
{
    assert(m.tiles.contains_key(url) <==> m.order.to_set().contains(url));
    assert(m.order.to_set().contains(url) <==> m.order.contains(url));
}

/// Each lookup is counted once: as a hit where the tile was found, else as a miss.
pub proof fn lookups_are_counted_once(m: CacheModel, hit: bool)
    ensures
        m.counted(hit).hits + m.counted(hit).misses == m.hits + m.misses + 1,
        m.counted(hit).hits > m.hits <==> hit,
        m.counted(hit).order == m.order,
        m.counted(hit).tiles == m.tiles,
{
}

/// The way to a tile: it is looked for on disk only after memory, where tiles of
/// its sort have a place there, and asked of the server only after both. What was
/// in memory is not kept again, what was on disk is kept in memory, and an answer
/// that is good is kept wherever it has a place; without an answer there is nothing
/// to take.
pub proof fn tiles_are_looked_for_nearby_first(on_disk: bool, event: FetchEvent)
    ensures
        next_step(on_disk, event) is AskDisk <==> on_disk && event == (FetchEvent::Memory {
            found: false,
        }),
        next_step(on_disk, event) is AskServer <==> event == (FetchEvent::Disk { found: false }) || (
        !on_disk && event == (FetchEvent::Memory { found: false })),
        next_step(on_disk, event) is GiveUp <==> event is NoReply,
        event == (FetchEvent::Memory { found: true }) ==> next_step(on_disk, event) == (
        FetchAction::Take { keep_in_memory: false, keep_on_disk: false }),
        event == (FetchEvent::Disk { found: true }) ==> next_step(on_disk, event) == (
        FetchAction::Take { keep_in_memory: true, keep_on_disk: false }),
        event == (FetchEvent::Reply { success: true, empty: false }) ==> next_step(on_disk, event)
            == (FetchAction::Take { keep_in_memory: true, keep_on_disk: on_disk }),
        event is Reply && event != (FetchEvent::Reply { success: true, empty: false }) ==> next_step(
            on_disk,
            event,
        ) == (FetchAction::Take { keep_in_memory: false, keep_on_disk: false }),
{
}

/// Whether a text is made of the letters A to Z and a to z, of digits and single
/// dots, and is not empty.
pub open spec fn is_plain(s: Seq<char>) -> bool {
    &&& s.len() > 0
    &&& forall|i: int|
        0 <= i < s.len() ==> 0x41 <= (#[trigger] s[i]) as int <= 0x5a || 0x61 <= s[i] as int <= 0x7a
            || 0x30 <= s[i] as int <= 0x39 || s[i] as int == 0x2e
    &&& forall|i: int|
        0 < i < s.len() && (#[trigger] s[i]) as int == 0x2e ==> s[i - 1] as int != 0x2e
}

/// A tile is kept under the last three parts of its address, where all three are
/// plain, and under no name where one is not.
pub proof fn tiles_are_kept_under_their_last_parts(
    head: Seq<char>,
    z: Seq<char>,
    x: Seq<char>,
    y: Seq<char>,
)
    requires
        head.len() > 0,
        head.last() == '/',
        !z.contains('/'),
        !x.contains('/'),
        !y.contains('/'),
    ensures
        disk_names(head + (z + "/"@ + (x + "/"@ + y))) == if is_plain(z) && is_plain(x)
            && is_plain(y) {
            Some((z, x, y))
        } else {
            None
        },
{
    lemma_tail(head, z, x, y);
    lemma_plain(z);
    lemma_plain(x);
    lemma_plain(y);
}

proof fn lemma_plain(s: Seq<char>)
    ensures
        safe_name(s) == is_plain(s),
{
    if safe_name(s) {
        assert forall|i: int|
            0 < i < s.len() && (#[trigger] s[i]) as int == 0x2e implies s[i - 1] as int != 0x2e by {
            let k = i - 1;
            assert(!(s[k] == '.' && s[k + 1] == '.'));
        }
        assert forall|i: int| 0 <= i < s.len() implies 0x41 <= (#[trigger] s[i]) as int <= 0x5a || 0x61
            <= s[i] as int <= 0x7a || 0x30 <= s[i] as int <= 0x39 || s[i] as int == 0x2e by {
            assert(plain_char(s[i]));
        }
    }
    if is_plain(s) {
        assert forall|i: int| 0 <= i < s.len() implies plain_char(#[trigger] s[i]) by {
            assert(0x41 <= s[i] as int <= 0x5a || 0x61 <= s[i] as int <= 0x7a || 0x30 <= s[i] as int
                <= 0x39 || s[i] as int == 0x2e);
        }
        assert forall|i: int| 0 <= i && i + 1 < s.len() implies !(#[trigger] s[i] == '.' && s[i + 1]
            == '.') by {
            let k = i + 1;
            assert(s[k] as int == 0x2e ==> s[k - 1] as int != 0x2e);
        }
    }
}

/// Asking for a tile that is not there changes nothing.
pub proof fn missing_tiles_change_nothing(m: CacheModel, url: Seq<char>)
    requires
        m.valid(),
        !m.tiles.contains_key(url),
    ensures
        m.got(url) == m,
{
    assert(m.tiles.dom().contains(url) <==> m.order.to_set().contains(url));
}

} // verus!
