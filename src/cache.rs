//! The set-associative store: per set index, the resident tags in recency order.
use vstd::prelude::*;

verus! {

/// The strings of a list of tags, in order.
pub open spec fn tags_view(v: Vec<String>) -> Seq<Seq<char>> {
    v@.map_values(|t: String| t@)
}

/// The set's tags once `tag` is accessed, most recently used first: a hit
/// moves `tag` to the front; a miss puts it at the front, dropping the least
/// recently used tag (the last one) when the set already holds `e` tags.
pub open spec fn set_after(list: Seq<Seq<char>>, tag: Seq<char>, e: int) -> Seq<Seq<char>> {
    if list.contains(tag) {
        seq![tag] + without(list, tag)
    } else if list.len() < e {
        seq![tag] + list
    } else {
        seq![tag] + list.drop_last()
    }
}

/// An access to `tag` in a set holding `list` is a hit.
pub open spec fn is_hit(list: Seq<Seq<char>>, tag: Seq<char>) -> bool {
    list.contains(tag)
}

/// An access to `tag` in a set holding `list` evicts a tag.
pub open spec fn is_eviction(list: Seq<Seq<char>>, tag: Seq<char>, e: int) -> bool {
    !list.contains(tag) && list.len() >= e
}

/// The tags of the set with index `key`; a set never touched holds none.
pub open spec fn set_of(m: Map<Seq<char>, Seq<Seq<char>>>, key: Seq<char>) -> Seq<Seq<char>> {
    if m.contains_key(key) {
        m[key]
    } else {
        Seq::empty()
    }
}

/// The cache: for each set index that has been accessed, its resident tags,
/// most recently used first.
pub struct Cache {
    keys: Vec<String>,
    sets: Vec<Vec<String>>,
}

impl Cache {
    pub closed spec fn key_seq(&self) -> Seq<Seq<char>> {
        self.keys@.map_values(|k: String| k@)
    }

    pub closed spec fn set_seq(&self) -> Seq<Seq<Seq<char>>> {
        self.sets@.map_values(|v: Vec<String>| tags_view(v))
    }

    /// Set indices are distinct, and so are the tags within each set.
    pub closed spec fn wf(&self) -> bool {
        &&& self.keys@.len() == self.sets@.len()
        &&& self.key_seq().no_duplicates()
        &&& forall|i: int| 0 <= i < self.sets@.len() ==> #[trigger] tags_view(self.sets@[i]).no_duplicates()
    }

    /// Every set holds at most `e` tags.
    pub open spec fn within(&self, e: int) -> bool {
        forall|k: Seq<char>| #[trigger] self@.contains_key(k) ==> self@[k].len() <= e
    }

    pub closed spec fn view(&self) -> Map<Seq<char>, Seq<Seq<char>>> {
        Map::new(
            |k: Seq<char>| self.key_seq().contains(k),
            |k: Seq<char>| self.set_seq()[self.key_seq().index_of(k)],
        )
    }

    proof fn lemma_view_at(&self, i: int)
        requires
            self.wf(),
            0 <= i < self.keys@.len(),
        ensures
            self@.contains_key(self.key_seq()[i]),
            self@[self.key_seq()[i]] == self.set_seq()[i],
    {
        let k = self.key_seq()[i];
        assert(self.key_seq().contains(k));
        let j = self.key_seq().index_of(k);
        assert(self.key_seq()[j] == k);
    }

    proof fn lemma_set_replaced(a: Cache, b: Cache, i: int)
        requires
            a.wf(),
            0 <= i < a.keys@.len(),
            b.key_seq() == a.key_seq(),
            b.set_seq() == a.set_seq().update(i, b.set_seq()[i]),
            b.keys@.len() == b.sets@.len(),
        ensures
            b@ == a@.insert(a.key_seq()[i], b.set_seq()[i]),
    {
        let k = a.key_seq()[i];
        assert forall|x: Seq<char>| #[trigger] b@.contains_key(x) implies b@[x] == a@.insert(k, b.set_seq()[i])[x] by {
            let j = b.key_seq().index_of(x);
            assert(b.key_seq().contains(x));
            assert(a.key_seq()[j] == x);
            if j != i {
                assert(x != k);
            }
        }
        assert(b@ =~= a@.insert(k, b.set_seq()[i]));
    }

    proof fn lemma_set_added(a: Cache, b: Cache, k: Seq<char>, v: Seq<Seq<char>>)
        requires
            a.wf(),
            !a@.contains_key(k),
            b.key_seq() == a.key_seq().push(k),
            b.set_seq() == a.set_seq().push(v),
        ensures
            b@ == a@.insert(k, v),
    {
        let n = a.keys@.len() as int;
        assert(b.key_seq()[n] == k);
        assert forall|x: Seq<char>| #[trigger] b@.contains_key(x) implies b@[x] == a@.insert(k, v)[x] by {
            let j = b.key_seq().index_of(x);
            assert(b.key_seq().contains(x));
            if x == k {
                if j != n {
                    assert(a.key_seq()[j] == k);
                    assert(a.key_seq().contains(k));
                }
            } else {
                assert(j != n);
                assert(a.key_seq().contains(x));
                let j2 = a.key_seq().index_of(x);
                assert(a.key_seq()[j2] == x);
                assert(b.key_seq()[j2] == x);
                assert(j == j2) by {
                    assert(a.key_seq()[j] == x);
                }
            }
        }
        assert forall|x: Seq<char>| #[trigger] a@.insert(k, v).contains_key(x) implies b@.contains_key(x) by {
            if x == k {
                assert(b.key_seq()[n] == k);
            } else {
                let j2 = a.key_seq().index_of(x);
                assert(a.key_seq().contains(x));
                assert(b.key_seq()[j2] == x);
            }
        }
        assert(b@ =~= a@.insert(k, v));
    }

    /// Sets the tags of the set with index `key`, most recently used first.
    pub fn insert(&mut self, key: String, tags: Vec<String>)
        requires
            old(self).wf(),
            tags_view(tags).no_duplicates(),
        ensures
            final(self).wf(),
            final(self)@ == old(self)@.insert(key@, tags_view(tags)),
    {
        let ghost a = *self;
        let ghost v = tags_view(tags);
        match self.find(&key) {
            Some(i) => {
                self.sets.set(i, tags);
                proof {
                    assert(self.key_seq() =~= a.key_seq());
                    assert(self.set_seq() =~= a.set_seq().update(i as int, v));
                    Cache::lemma_set_replaced(a, *self, i as int);
                }
            },
            None => {
                let ghost k = key@;
                self.keys.push(key);
                self.sets.push(tags);
                proof {
                    assert(self.key_seq() =~= a.key_seq().push(k));
                    assert(self.set_seq() =~= a.set_seq().push(v));
                    assert(!a.key_seq().contains(k));
                    Cache::lemma_set_added(a, *self, k, v);
                }
            },
        }
    }

    /// An empty cache.
    pub fn new() -> (c: Cache)
        ensures
            c.wf(),
            c@ == Map::<Seq<char>, Seq<Seq<char>>>::empty(),
    {
        let c = Cache { keys: Vec::new(), sets: Vec::new() };
        assert(c@ =~= Map::<Seq<char>, Seq<Seq<char>>>::empty());
        c
    }

    /// The position of `key` among the set indices.
    fn find(&self, key: &String) -> (r: Option<usize>)
        requires
            self.wf(),
        ensures
            match r {
                Some(i) => i < self.keys@.len() && self.key_seq()[i as int] == key@,
                None => !self@.contains_key(key@),
            },
    {
        let mut i: usize = 0;
        while i < self.keys.len()
            invariant
                i <= self.keys@.len(),
                forall|j: int| 0 <= j < i ==> self.key_seq()[j] != key@,
            decreases self.keys@.len() - i,
        {
            if self.keys[i] == *key {
                return Some(i);
            }
            i = i + 1;
        }
        None
    }

    /// Whether the set with index `key` has been accessed.
    pub fn contains_key(&self, key: &String) -> (r: bool)
        requires
            self.wf(),
        ensures
            r == self@.contains_key(key@),
    {
        match self.find(key) {
            Some(i) => {
                proof {
                    self.lemma_view_at(i as int);
                }
                true
            },
            None => false,
        }
    }

    /// The tags of the set with index `key`, most recently used first.
    pub fn get(&self, key: &String) -> (r: Option<&Vec<String>>)
        requires
            self.wf(),
        ensures
            match r {
                Some(v) => self@.contains_key(key@) && tags_view(*v) == self@[key@],
                None => !self@.contains_key(key@),
            },
    {
        match self.find(key) {
            Some(i) => {
                proof {
                    self.lemma_view_at(i as int);
                }
                Some(&self.sets[i])
            },
            None => None,
        }
    }
}

/// The tags of `list` other than `tag`, in order.
pub open spec fn without(list: Seq<Seq<char>>, tag: Seq<char>) -> Seq<Seq<char>> {
    list.filter(other_than(tag))
}

/// Holds of every tag but `tag`.
pub open spec fn other_than(tag: Seq<char>) -> spec_fn(Seq<char>) -> bool {
    |x: Seq<char>| x != tag
}

proof fn lemma_without_absent(list: Seq<Seq<char>>, tag: Seq<char>)
    requires
        !list.contains(tag),
    ensures
        without(list, tag) == list,
    decreases list.len(),
{
    reveal(Seq::filter);
    if list.len() > 0 {
        assert(!list.drop_last().contains(tag)) by {
            if list.drop_last().contains(tag) {
                let j = choose|j: int| 0 <= j < list.drop_last().len() && list.drop_last()[j] == tag;
                assert(list[j] == tag);
            }
        }
        lemma_without_absent(list.drop_last(), tag);
        assert(list.drop_last().push(list.last()) =~= list);
    }
}

proof fn lemma_remove_is_without(list: Seq<Seq<char>>, p: int)
    requires
        list.no_duplicates(),
        0 <= p < list.len(),
    ensures
        list.remove(p) == without(list, list[p]),
{
    let tag = list[p];
    let pre = list.subrange(0, p);
    let post = list.subrange(p + 1, list.len() as int);
    assert(list =~= pre + seq![tag] + post);
    assert(list.remove(p) =~= pre + post);
    assert(!pre.contains(tag)) by {
        if pre.contains(tag) {
            let j = choose|j: int| 0 <= j < pre.len() && pre[j] == tag;
            assert(list[j] == tag);
        }
    }
    assert(!post.contains(tag)) by {
        if post.contains(tag) {
            let j = choose|j: int| 0 <= j < post.len() && post[j] == tag;
            assert(list[p + 1 + j] == tag);
        }
    }
    lemma_without_absent(pre, tag);
    lemma_without_absent(post, tag);
    reveal_with_fuel(Seq::filter, 2);
    assert(without(seq![tag], tag) =~= Seq::<Seq<char>>::empty()) by {
        assert(seq![tag].drop_last() =~= Seq::<Seq<char>>::empty());
    }
    Seq::filter_distributes_over_add(pre, seq![tag], other_than(tag));
    Seq::filter_distributes_over_add(pre + seq![tag], post, other_than(tag));
}

/// Accessing a tag keeps the tags of a set distinct.
proof fn lemma_after_distinct(list: Seq<Seq<char>>, tag: Seq<char>, e: int)
    requires
        list.no_duplicates(),
        e >= 1,
    ensures
        set_after(list, tag, e).no_duplicates(),
{
    let after = set_after(list, tag, e);
    let rest = after.drop_first();
    if list.contains(tag) {
        let p = choose|p: int| 0 <= p < list.len() && list[p] == tag;
        lemma_remove_is_without(list, p);
        assert(rest =~= list.remove(p));
        assert forall|i: int, j: int| 0 <= i < j < rest.len() implies rest[i] != rest[j] by {
            let ii = if i < p { i } else { i + 1 };
            let jj = if j < p { j } else { j + 1 };
            assert(rest[i] == list[ii]);
            assert(rest[j] == list[jj]);
        }
        assert forall|i: int| 0 <= i < rest.len() implies rest[i] != tag by {
            let ii = if i < p { i } else { i + 1 };
            assert(rest[i] == list[ii]);
        }
    } else if list.len() < e {
        assert(rest =~= list);
    } else {
        assert(rest =~= list.drop_last());
        assert forall|i: int| 0 <= i < rest.len() implies rest[i] != tag by {
            assert(rest[i] == list[i]);
        }
    }
    assert forall|i: int, j: int| 0 <= i < after.len() && 0 <= j < after.len() && i != j implies after[i] != after[j] by {
        if i > 0 && j > 0 {
            assert(after[i] == rest[i - 1]);
            assert(after[j] == rest[j - 1]);
        } else if i == 0 {
            assert(after[j] == rest[j - 1]);
        } else {
            assert(after[i] == rest[i - 1]);
        }
    }
}

/// After an access to `tag`, the rest of the set follows it and holds no other
/// copy of it.
proof fn lemma_after_front(list: Seq<Seq<char>>, tag: Seq<char>, e: int)
    requires
        e >= 1,
    ensures
        set_after(list, tag, e).len() >= 1,
        set_after(list, tag, e)[0] == tag,
        !set_after(list, tag, e).drop_first().contains(tag),
{
    let after = set_after(list, tag, e);
    let rest = after.drop_first();
    assert(after[0] == tag);
    if list.contains(tag) {
        assert(rest =~= without(list, tag));
        assert forall|j: int| 0 <= j < rest.len() implies rest[j] != tag by {
            list.lemma_filter_pred(other_than(tag), j);
        }
    } else if list.len() < e {
        assert(rest =~= list);
    } else {
        assert(rest =~= list.drop_last());
        assert forall|j: int| 0 <= j < rest.len() implies rest[j] != tag by {
            assert(rest[j] == list[j]);
        }
    }
}

/// Accessing the tag that was just accessed is a hit, evicts nothing and
/// leaves its set unchanged, whatever the set held before.
pub proof fn lemma_reaccess_hits(list: Seq<Seq<char>>, tag: Seq<char>, e: int)
    requires
        e >= 1,
    ensures
        is_hit(set_after(list, tag, e), tag),
        !is_eviction(set_after(list, tag, e), tag, e),
        set_after(set_after(list, tag, e), tag, e) == set_after(list, tag, e),
{
    let after = set_after(list, tag, e);
    lemma_after_front(list, tag, e);
    let rest = after.drop_first();
    assert(after.contains(tag));
    assert(after =~= seq![tag] + rest);
    lemma_without_absent(rest, tag);
    reveal_with_fuel(Seq::filter, 2);
    assert(without(seq![tag], tag) =~= Seq::<Seq<char>>::empty()) by {
        assert(seq![tag].drop_last() =~= Seq::<Seq<char>>::empty());
    }
    Seq::filter_distributes_over_add(seq![tag], rest, other_than(tag));
    assert(without(after, tag) =~= rest);
    assert(set_after(after, tag, e) =~= after);
}

/// The first access to a set that holds nothing is a miss that evicts nothing
/// and leaves the tag alone in the set; accessing the same tag again right
/// away is a hit that evicts nothing and keeps the set's size.
pub proof fn lemma_fresh_set_miss_then_hit(tag: Seq<char>, e: int)
    requires
        e >= 1,
    ensures
        !is_hit(Seq::empty(), tag),
        !is_eviction(Seq::empty(), tag, e),
        set_after(Seq::empty(), tag, e) == seq![tag],
        is_hit(seq![tag], tag),
        !is_eviction(seq![tag], tag, e),
        set_after(seq![tag], tag, e).len() == 1,
{
    assert(set_after(Seq::empty(), tag, e) =~= seq![tag]);
    lemma_reaccess_hits(Seq::empty(), tag, e);
}

/// The set reached by accessing `tags` in order, starting from an empty set.
pub open spec fn fill(tags: Seq<Seq<char>>, e: int) -> Seq<Seq<char>>
    decreases tags.len(),
{
    if tags.len() == 0 {
        Seq::empty()
    } else {
        set_after(fill(tags.drop_last(), e), tags.last(), e)
    }
}

/// Accessing at most `e` distinct tags in a fresh set keeps them all, the
/// latest first.
pub proof fn lemma_fill_distinct(tags: Seq<Seq<char>>, e: int)
    requires
        tags.no_duplicates(),
        tags.len() <= e,
    ensures
        fill(tags, e) == tags.reverse(),
    decreases tags.len(),
{
    if tags.len() > 0 {
        let init = tags.drop_last();
        let last = tags.last();
        lemma_fill_distinct(init, e);
        assert(!init.reverse().contains(last)) by {
            if init.reverse().contains(last) {
                let j = choose|j: int| 0 <= j < init.reverse().len() && init.reverse()[j] == last;
                assert(tags[init.len() - 1 - j] == last);
            }
        }
        assert(fill(tags, e) =~= tags.reverse());
    }
}

/// Once a set is filled with exactly `e` distinct tags, an access to one more
/// distinct tag is a miss and an eviction; the tag evicted is the first one
/// filled in, the least recently used, and the set keeps exactly `e` tags:
/// the new one and all the others.
pub proof fn lemma_full_set_evicts_lru(tags: Seq<Seq<char>>, tag: Seq<char>, e: int)
    requires
        e >= 1,
        tags.len() == e,
        tags.no_duplicates(),
        !tags.contains(tag),
    ensures
        !is_hit(fill(tags, e), tag),
        is_eviction(fill(tags, e), tag, e),
        set_after(fill(tags, e), tag, e).len() == e,
        set_after(fill(tags, e), tag, e)[0] == tag,
        !set_after(fill(tags, e), tag, e).contains(tags[0]),
        forall|i: int| 1 <= i < e ==> set_after(fill(tags, e), tag, e).contains(#[trigger] tags[i]),
{
    lemma_fill_distinct(tags, e);
    let list = fill(tags, e);
    assert(!list.contains(tag)) by {
        if list.contains(tag) {
            let j = choose|j: int| 0 <= j < list.len() && list[j] == tag;
            assert(tags[e - 1 - j] == tag);
        }
    }
    let after = set_after(list, tag, e);
    assert(after =~= seq![tag] + list.drop_last());
    assert(!after.contains(tags[0])) by {
        if after.contains(tags[0]) {
            let j = choose|j: int| 0 <= j < after.len() && after[j] == tags[0];
            if j > 0 {
                assert(after[j] == tags[e - j]);
            }
        }
    }
    assert forall|i: int| 1 <= i < e implies after.contains(#[trigger] tags[i]) by {
        assert(after[e - i] == tags[i]);
    }
}

/// The position of `tag` in `list`.
fn position(list: &Vec<String>, tag: &String) -> (r: Option<usize>)
    ensures
        match r {
            Some(p) => p < list@.len() && tags_view(*list)[p as int] == tag@,
            None => !tags_view(*list).contains(tag@),
        },
{
    let mut i: usize = 0;
    while i < list.len()
        invariant
            i <= list@.len(),
            forall|j: int| 0 <= j < i ==> tags_view(*list)[j] != tag@,
        decreases list@.len() - i,
    {
        if list[i] == *tag {
            return Some(i);
        }
        i = i + 1;
    }
    None
}

/// Accesses `tag` in the set with index `set_index`, keeping at most `e` tags
/// per set in least-recently-used order, and counts the access as a hit or a
/// miss, and as an eviction where a tag had to leave.
///
/// A set index not yet in the cache is a miss that creates its set. A tag
/// already in its set is a hit and moves to the front. Any other tag is a miss
/// and goes to the front; when the set is full, its last (least recently used)
/// tag is evicted first.
pub fn check_cache(
    cache: &mut Cache,
    hits: &mut i32,
    misses: &mut i32,
    evictions: &mut i32,
    tag: &String,
    set_index: &String,
    e: &i32,
)
    requires
        old(cache).wf(),
        *e >= 1,
        *old(hits) < i32::MAX,
        *old(misses) < i32::MAX,
        *old(evictions) < i32::MAX,
    ensures
        final(cache).wf(),
        final(cache)@ == old(cache)@.insert(
            set_index@,
            set_after(set_of(old(cache)@, set_index@), tag@, *e as int),
        ),
        *final(hits) == *old(hits) + if is_hit(set_of(old(cache)@, set_index@), tag@) {
            1int
        } else {
            0int
        },
        *final(misses) == *old(misses) + if is_hit(set_of(old(cache)@, set_index@), tag@) {
            0int
        } else {
            1int
        },
        *final(evictions) == *old(evictions) + if is_eviction(
            set_of(old(cache)@, set_index@),
            tag@,
            *e as int,
        ) {
            1int
        } else {
            0int
        },
        old(cache).within(*e as int) ==> final(cache).within(*e as int),
{
    let ghost a = *cache;
    let ghost list0 = set_of(cache@, set_index@);
    let ghost t = tag@;
    let ghost after = set_after(list0, t, *e as int);
    match cache.find(set_index) {
        None => {
            *misses = *misses + 1;
            let mut v: Vec<String> = Vec::new();
            v.insert(0, tag.clone());
            let ghost k = set_index@;
            proof {
                assert(list0 =~= Seq::<Seq<char>>::empty());
                lemma_after_distinct(list0, t, *e as int);
                assert(tags_view(v) =~= after);
            }
            cache.keys.push(set_index.clone());
            cache.sets.push(v);
            proof {
                assert(cache.key_seq() =~= a.key_seq().push(k));
                assert(cache.set_seq() =~= a.set_seq().push(after));
                assert(!a.key_seq().contains(k));
                Cache::lemma_set_added(a, *cache, k, after);
            }
        },
        Some(i) => {
            proof {
                a.lemma_view_at(i as int);
                lemma_after_distinct(list0, t, *e as int);
            }
            let mut list: Vec<String> = Vec::new();
            std::mem::swap(&mut list, &mut cache.sets[i]);
            assert(tags_view(list) == list0);
            match position(&list, tag) {
                Some(p) => {
                    *hits = *hits + 1;
                    let moved = list.remove(p);
                    list.insert(0, moved);
                    proof {
                        lemma_remove_is_without(list0, p as int);
                        assert(tags_view(list) =~= after);
                    }
                },
                None => {
                    *misses = *misses + 1;
                    if list.len() >= *e as usize {
                        *evictions = *evictions + 1;
                        list.pop();
                    }
                    list.insert(0, tag.clone());
                    assert(tags_view(list) =~= after);
                },
            }
            cache.sets.set(i, list);
            proof {
                assert(cache.key_seq() =~= a.key_seq());
                assert(cache.set_seq() =~= a.set_seq().update(i as int, after));
                Cache::lemma_set_replaced(a, *cache, i as int);
            }
        },
    }
}

} // verus!
