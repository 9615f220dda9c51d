//! The chart data structure: the immutable aggregate of metadata,
//! placed objects, the timeline, and the keysound / background-layer
//! path tables, together with its builder.
use crate::bms::{Alphanumeric, ObjType, Object};
use crate::bms::timeline::{
    build_model, builder_ok, model_time_from_measure, Event, Timeline, TimelineBuilder,
    TimelineEvent, CMD_MEASURE_CAP, KEY_TABLE_SIZE, VALUE_CAP,
};
use vstd::prelude::*;

verus! {

/// The metadata value stored under `key`: the value of the latest
/// insertion wins, as in a map.
pub open spec fn meta_lookup(m: Seq<(String, String)>, key: Seq<char>) -> Option<Seq<char>>
    decreases m.len(),
{
    if m.len() == 0 {
        None
    } else if m.last().0@ == key {
        Some(m.last().1@)
    } else {
        meta_lookup(m.drop_last(), key)
    }
}

/// Stable insertion of an object into a sequence sorted by score
/// position: the object lands after every object at the same or an
/// earlier position.
pub open spec fn insert_sorted_obj(s: Seq<Object>, x: Object) -> Seq<Object>
    decreases s.len(),
{
    if s.len() == 0 {
        seq![x]
    } else if s.last().measure <= x.measure {
        s.push(x)
    } else {
        insert_sorted_obj(s.drop_last(), x).push(s.last())
    }
}

/// Stable insertion sort of objects by score position.
pub open spec fn insort_objs(s: Seq<Object>) -> Seq<Object>
    decreases s.len(),
{
    if s.len() == 0 {
        Seq::empty()
    } else {
        insert_sorted_obj(insort_objs(s.drop_last()), s.last())
    }
}

pub open spec fn objs_sorted(s: Seq<Object>) -> bool {
    forall|i: int, j: int| #![trigger s[i], s[j]] 0 <= i <= j < s.len() ==> s[i].measure
        <= s[j].measure
}

/// Inserting at the position the scan finds is what `insert_sorted_obj`
/// describes.
pub proof fn lemma_insert_sorted_obj_at(s: Seq<Object>, x: Object, j: int)
    requires
        objs_sorted(s),
        0 <= j <= s.len(),
        forall|i: int| 0 <= i < j ==> s[i].measure <= x.measure,
        forall|i: int| j <= i < s.len() ==> s[i].measure > x.measure,
    ensures
        insert_sorted_obj(s, x) == s.insert(j, x),
        objs_sorted(s.insert(j, x)),
    decreases s.len(),
{
    s.insert_ensures(j, x);
    if s.len() == 0 {
        assert(insert_sorted_obj(s, x) =~= s.insert(0, x));
    } else if j == s.len() {
        assert(s.last().measure <= x.measure);
        assert(s.push(x) =~= s.insert(j, x));
    } else {
        assert(s[s.len() - 1].measure > x.measure);
        let s2 = s.drop_last();
        assert(objs_sorted(s2)) by {
            assert(forall|a: int, b: int|
                #![trigger s2[a], s2[b]]
                0 <= a <= b < s2.len() ==> s[a].measure <= s[b].measure);
        }
        lemma_insert_sorted_obj_at(s2, x, j);
        s2.insert_ensures(j, x);
        assert(insert_sorted_obj(s, x) =~= s.insert(j, x));
    }
    assert forall|a: int, b: int|
        #![trigger s.insert(j, x)[a], s.insert(j, x)[b]]
        0 <= a <= b < s.insert(j, x).len() implies s.insert(j, x)[a].measure <= s.insert(
        j,
        x,
    )[b].measure by {
        let t = s.insert(j, x);
        if a < j && b > j {
            assert(t[a] == s[a] && t[b] == s[b - 1]);
            if b - 1 >= j {
                assert(s[b - 1].measure > x.measure);
                assert(s[a].measure <= x.measure);
            }
        } else if a == j && b > j {
            assert(t[a] == x && t[b] == s[b - 1]);
            assert(s[b - 1].measure > x.measure);
        }
    }
}

/// The object sequence with every object's absolute time resolved from
/// the given timeline events.
pub open spec fn resolve_times(objs: Seq<Object>, evs: Seq<Event>) -> Seq<Object> {
    Seq::new(
        objs.len(),
        |i: int|
            Object {
                time: model_time_from_measure(evs, objs[i].measure) as u128,
                ..objs[i]
            },
    )
}

/// An immutable chart: metadata, the time-ordered object list, the
/// timeline, and the keysound and background-layer path tables.
#[derive(Debug)]
pub struct BMS {
    /// The chart title; a sentinel when the metadata lacks one.
    pub title: String,
    /// The chart artist; a sentinel when the metadata lacks one.
    pub artist: String,
    /// All recognized metadata entries, in the order they were added.
    pub metadata: Vec<(String, String)>,
    /// The placed objects, sorted by score position, each with its
    /// resolved absolute time.
    pub objects: Vec<Object>,
    /// The queryable tempo/time model.
    pub timeline: Timeline,
    /// Keysound path per key; None for unregistered keys.
    pub keysounds: Vec<Option<String>>,
    /// Background-layer path per key; None for unregistered keys.
    pub bga_layers: Vec<Option<String>>,
}

/// The mutable chart builder: it gathers metadata, objects, paths and
/// timing data during parsing and is consumed by `build`.
pub struct BmsBuilder {
    pub metadata: Vec<(String, String)>,
    pub objects: Vec<Object>,
    pub keysounds: Vec<Option<String>>,
    pub bga_layers: Vec<Option<String>>,
    pub timeline_builder: TimelineBuilder,
}

/// Field bounds every chart builder the library hands out satisfies.
pub open spec fn chart_builder_ok(b: BmsBuilder) -> bool {
    &&& b.keysounds@.len() == KEY_TABLE_SIZE
    &&& b.bga_layers@.len() == KEY_TABLE_SIZE
    &&& builder_ok(b.timeline_builder)
    &&& forall|i: int| 0 <= i < b.objects@.len() ==> #[trigger] b.objects@[i].measure
        <= CMD_MEASURE_CAP
}

impl BmsBuilder {
    pub fn new() -> (r: BmsBuilder)
        ensures
            chart_builder_ok(r),
            r.metadata@ =~= Seq::<(String, String)>::empty(),
            r.objects@ =~= Seq::<Object>::empty(),
            forall|i: int| 0 <= i < r.keysounds@.len() ==> #[trigger] r.keysounds@[i] is None,
            forall|i: int| 0 <= i < r.bga_layers@.len() ==> #[trigger] r.bga_layers@[i] is None,
            r.timeline_builder.base_bpm == 130_000,
            r.timeline_builder.events@ =~= Seq::<TimelineEvent>::empty(),
            forall|i: int| 0 <= i < r.timeline_builder.measure_lens@.len()
                ==> #[trigger] r.timeline_builder.measure_lens@[i] == 1000,
            forall|i: int| 0 <= i < r.timeline_builder.bpms@.len()
                ==> #[trigger] r.timeline_builder.bpms@[i] == 0,
            forall|i: int| 0 <= i < r.timeline_builder.stops@.len()
                ==> #[trigger] r.timeline_builder.stops@[i] == 0,
    {
        let mut keysounds: Vec<Option<String>> = Vec::new();
        while keysounds.len() < KEY_TABLE_SIZE
            invariant
                keysounds@.len() <= KEY_TABLE_SIZE,
                forall|i: int| 0 <= i < keysounds@.len() ==> #[trigger] keysounds@[i] is None,
            decreases KEY_TABLE_SIZE - keysounds@.len(),
        {
            keysounds.push(None);
        }
        let mut bga_layers: Vec<Option<String>> = Vec::new();
        while bga_layers.len() < KEY_TABLE_SIZE
            invariant
                bga_layers@.len() <= KEY_TABLE_SIZE,
                forall|i: int| 0 <= i < bga_layers@.len() ==> #[trigger] bga_layers@[i] is None,
            decreases KEY_TABLE_SIZE - bga_layers@.len(),
        {
            bga_layers.push(None);
        }
        BmsBuilder {
            metadata: Vec::new(),
            objects: Vec::new(),
            keysounds,
            bga_layers,
            timeline_builder: TimelineBuilder::new(),
        }
    }

    /// Stores one metadata entry; a later entry under the same header
    /// wins at lookup.
    pub fn with_metadata(&mut self, header: String, value: String)
        ensures
            final(self).metadata@ == old(self).metadata@.push((header, value)),
            final(self).objects == old(self).objects,
            final(self).keysounds == old(self).keysounds,
            final(self).bga_layers == old(self).bga_layers,
            final(self).timeline_builder == old(self).timeline_builder,
    {
        self.metadata.push((header, value));
    }

    /// Registers the path of a keysound.
    pub fn with_keysound(&mut self, keysound_key: Alphanumeric, path: String)
        requires
            old(self).keysounds@.len() == KEY_TABLE_SIZE,
            keysound_key.key < KEY_TABLE_SIZE,
        ensures
            final(self).keysounds@ == old(self).keysounds@.update(
                keysound_key.key as int,
                Some(path),
            ),
            final(self).metadata == old(self).metadata,
            final(self).objects == old(self).objects,
            final(self).bga_layers == old(self).bga_layers,
            final(self).timeline_builder == old(self).timeline_builder,
    {
        self.keysounds[keysound_key.key] = Some(path);
    }

    /// Registers the path of a background layer.
    pub fn with_bga_layer(&mut self, bga_key: Alphanumeric, path: String)
        requires
            old(self).bga_layers@.len() == KEY_TABLE_SIZE,
            bga_key.key < KEY_TABLE_SIZE,
        ensures
            final(self).bga_layers@ == old(self).bga_layers@.update(
                bga_key.key as int,
                Some(path),
            ),
            final(self).metadata == old(self).metadata,
            final(self).objects == old(self).objects,
            final(self).keysounds == old(self).keysounds,
            final(self).timeline_builder == old(self).timeline_builder,
    {
        self.bga_layers[bga_key.key] = Some(path);
    }

    /// Registers a named tempo.
    pub fn with_bpm(&mut self, bpm_key: Alphanumeric, bpm: u64)
        requires
            old(self).timeline_builder.bpms@.len() == KEY_TABLE_SIZE,
            bpm_key.key < KEY_TABLE_SIZE,
            1 <= bpm <= VALUE_CAP,
        ensures
            final(self).timeline_builder.bpms@ == old(self).timeline_builder.bpms@.update(
                bpm_key.key as int,
                bpm,
            ),
            final(self).timeline_builder.base_bpm == old(self).timeline_builder.base_bpm,
            final(self).timeline_builder.stops == old(self).timeline_builder.stops,
            final(self).timeline_builder.measure_lens == old(
                self,
            ).timeline_builder.measure_lens,
            final(self).timeline_builder.events == old(self).timeline_builder.events,
            final(self).metadata == old(self).metadata,
            final(self).objects == old(self).objects,
            final(self).keysounds == old(self).keysounds,
            final(self).bga_layers == old(self).bga_layers,
    {
        self.timeline_builder.with_bpm(bpm_key, bpm);
    }

    /// Registers a named stop duration.
    pub fn with_stop(&mut self, stop_key: Alphanumeric, stop: u64)
        requires
            old(self).timeline_builder.stops@.len() == KEY_TABLE_SIZE,
            stop_key.key < KEY_TABLE_SIZE,
            stop <= VALUE_CAP,
        ensures
            final(self).timeline_builder.stops@ == old(self).timeline_builder.stops@.update(
                stop_key.key as int,
                stop,
            ),
            final(self).timeline_builder.base_bpm == old(self).timeline_builder.base_bpm,
            final(self).timeline_builder.bpms == old(self).timeline_builder.bpms,
            final(self).timeline_builder.measure_lens == old(
                self,
            ).timeline_builder.measure_lens,
            final(self).timeline_builder.events == old(self).timeline_builder.events,
            final(self).metadata == old(self).metadata,
            final(self).objects == old(self).objects,
            final(self).keysounds == old(self).keysounds,
            final(self).bga_layers == old(self).bga_layers,
    {
        self.timeline_builder.with_stop(stop_key, stop);
    }

    /// Adds a placed object.
    pub fn add_object(&mut self, object: Object)
        requires
            object.measure <= CMD_MEASURE_CAP,
        ensures
            final(self).objects@ == old(self).objects@.push(object),
            final(self).metadata == old(self).metadata,
            final(self).keysounds == old(self).keysounds,
            final(self).bga_layers == old(self).bga_layers,
            final(self).timeline_builder == old(self).timeline_builder,
    {
        self.objects.push(object);
    }

    /// Assembles the immutable chart: title and artist fall back to
    /// sentinel strings, the objects are sorted by score position
    /// (stably), the timeline is built, and every object's absolute
    /// time is resolved through it.
    pub fn build(self) -> (r: BMS)
        requires
            chart_builder_ok(self),
        ensures
            r.title@ == match meta_lookup(self.metadata@, "TITLE"@) {
                Some(t) => t,
                None => "MISSING TITLE"@,
            },
            r.artist@ == match meta_lookup(self.metadata@, "ARTIST"@) {
                Some(t) => t,
                None => "MISSING ARTIST"@,
            },
            r.metadata == self.metadata,
            r.keysounds == self.keysounds,
            r.bga_layers == self.bga_layers,
            r.timeline.events@ == build_model(self.timeline_builder),
            r.timeline.wf(),
            r.objects@ == resolve_times(
                insort_objs(self.objects@),
                build_model(self.timeline_builder),
            ),
    {
        let mut this = self;
        let tkey: String = "TITLE".to_owned();
        let title = match lookup_meta(&this.metadata, &tkey) {
            Some(t) => t,
            None => "MISSING TITLE".to_owned(),
        };
        let akey: String = "ARTIST".to_owned();
        let artist = match lookup_meta(&this.metadata, &akey) {
            Some(t) => t,
            None => "MISSING ARTIST".to_owned(),
        };

        // Sort objects by score position, stably.
        let ghost objs0 = this.objects@;
        let mut sorted: Vec<Object> = Vec::new();
        let mut oi: usize = 0;
        while oi < this.objects.len()
            invariant
                oi <= objs0.len(),
                this.objects@ == objs0,
                sorted@ == insort_objs(objs0.take(oi as int)),
                objs_sorted(sorted@),
                forall|i: int| 0 <= i < objs0.len() ==> #[trigger] objs0[i].measure
                    <= CMD_MEASURE_CAP,
                forall|i: int| 0 <= i < sorted@.len() ==> #[trigger] sorted@[i].measure
                    <= CMD_MEASURE_CAP,
            decreases objs0.len() - oi,
        {
            let x = this.objects[oi];
            let mut j: usize = 0;
            while j < sorted.len() && sorted[j].measure <= x.measure
                invariant
                    j <= sorted@.len(),
                    forall|i: int| 0 <= i < j ==> #[trigger] sorted@[i].measure <= x.measure,
                    objs_sorted(sorted@),
                decreases sorted@.len() - j,
            {
                j = j + 1;
            }
            proof {
                assert forall|i: int| j <= i < sorted@.len() implies #[trigger] sorted@[i].measure
                    > x.measure by {
                    if j < sorted@.len() {
                        assert(sorted@[j as int].measure > x.measure);
                        assert(sorted@[j as int].measure <= sorted@[i].measure);
                    }
                }
                lemma_insert_sorted_obj_at(sorted@, x, j as int);
                sorted@.insert_ensures(j as int, x);
                assert(objs0.take(oi as int + 1).drop_last() =~= objs0.take(oi as int));
                assert(insort_objs(objs0.take(oi as int + 1)) == insert_sorted_obj(
                    insort_objs(objs0.take(oi as int)),
                    x,
                ));
            }
            sorted.insert(j, x);
            oi = oi + 1;
        }
        proof {
            assert(objs0.take(objs0.len() as int) =~= objs0);
        }

        // Pre-build the timeline, so the object times can be resolved.
        let mut tlb = this.timeline_builder;
        let timeline = tlb.build();

        // Resolve every object's absolute time through the timeline.
        let ghost sorted0 = sorted@;
        let mut ti: usize = 0;
        while ti < sorted.len()
            invariant
                ti <= sorted0.len(),
                sorted@.len() == sorted0.len(),
                timeline.wf(),
                timeline.events@ == build_model(self.timeline_builder),
                forall|i: int| 0 <= i < sorted0.len() ==> #[trigger] sorted0[i].measure
                    <= CMD_MEASURE_CAP,
                forall|i: int| 0 <= i < ti && i < sorted0.len() ==> sorted@[i]
                    == #[trigger] resolve_times(sorted0, timeline.events@)[i],
                forall|i: int| ti <= i < sorted0.len() ==> sorted@[i] == sorted0[i],
            decreases sorted0.len() - ti,
        {
            let cur = sorted[ti];
            proof {
                assert(cur == sorted0[ti as int]);
                assert(sorted0[ti as int].measure <= CMD_MEASURE_CAP);
            }
            let t = timeline.time_from_measure(cur.measure);
            sorted[ti] = Object { time: t, ..cur };
            proof {
                assert(sorted@[ti as int] == resolve_times(sorted0, timeline.events@)[ti as int]);
            }
            ti = ti + 1;
        }
        proof {
            assert(sorted@ =~= resolve_times(sorted0, timeline.events@));
        }

        BMS {
            title,
            artist,
            metadata: this.metadata,
            objects: sorted,
            timeline,
            keysounds: this.keysounds,
            bga_layers: this.bga_layers,
        }
    }
}

/// What a playback pass starting at object `i` does at elapsed time
/// `elapsed`: sound objects (autoplay keysounds and notes) that are due
/// are collected to play and passed over; the first sound object still
/// in the future stops the scan; other objects are passed over without
/// a time check. Returns the next unplayed index and the keys to play.
pub open spec fn due_scan(objs: Seq<Object>, i: int, elapsed: u128) -> (int, Seq<Alphanumeric>)
    decreases objs.len() - i,
{
    if i < 0 || i >= objs.len() {
        (i, Seq::empty())
    } else {
        match objs[i].objtype {
            ObjType::Auto(k) => if objs[i].time <= elapsed {
                let r = due_scan(objs, i + 1, elapsed);
                (r.0, seq![k] + r.1)
            } else {
                (i, Seq::empty())
            },
            ObjType::Note(k) => if objs[i].time <= elapsed {
                let r = due_scan(objs, i + 1, elapsed);
                (r.0, seq![k] + r.1)
            } else {
                (i, Seq::empty())
            },
            ObjType::BGA(_) => due_scan(objs, i + 1, elapsed),
            ObjType::LongNote(_) => due_scan(objs, i + 1, elapsed),
        }
    }
}

impl BMS {
    /// Decide which objects fall due by `elapsed` milliseconds of play
    /// time, scanning from the first unplayed object: returns the new
    /// unplayed index and the keysound keys to play now, in object
    /// order. A driving loop performs the playback and hands back the
    /// clock.
    pub fn objects_due(&self, last_played: usize, elapsed: u128) -> (r: (usize, Vec<Alphanumeric>))
        requires
            last_played <= self.objects@.len(),
        ensures
            r.0 == due_scan(self.objects@, last_played as int, elapsed).0,
            r.1@ == due_scan(self.objects@, last_played as int, elapsed).1,
    {
        let ghost objs = self.objects@;
        let n = self.objects.len();
        let mut i: usize = last_played;
        let mut keys: Vec<Alphanumeric> = Vec::new();
        let mut done: bool = false;
        while i < n && !done
            invariant
                last_played <= i <= n,
                n == objs.len(),
                self.objects@ == objs,
                !done ==> due_scan(objs, last_played as int, elapsed).0 == due_scan(
                    objs,
                    i as int,
                    elapsed,
                ).0 && due_scan(objs, last_played as int, elapsed).1 == keys@ + due_scan(
                    objs,
                    i as int,
                    elapsed,
                ).1,
                done ==> due_scan(objs, last_played as int, elapsed).0 == i && due_scan(
                    objs,
                    last_played as int,
                    elapsed,
                ).1 == keys@,
            decreases n - i, (if done {
                0int
            } else {
                1int
            }),
        {
            let obj = self.objects[i];
            match obj.objtype {
                ObjType::Auto(k) => {
                    if obj.time <= elapsed {
                        keys.push(k);
                        i = i + 1;
                        proof {
                            assert(keys@.drop_last().push(k) + due_scan(objs, i as int, elapsed).1
                                =~= keys@.drop_last() + (seq![k] + due_scan(
                                objs,
                                i as int,
                                elapsed,
                            ).1));
                        }
                    } else {
                        done = true;
                    }
                },
                ObjType::Note(k) => {
                    if obj.time <= elapsed {
                        keys.push(k);
                        i = i + 1;
                        proof {
                            assert(keys@.drop_last().push(k) + due_scan(objs, i as int, elapsed).1
                                =~= keys@.drop_last() + (seq![k] + due_scan(
                                objs,
                                i as int,
                                elapsed,
                            ).1));
                        }
                    } else {
                        done = true;
                    }
                },
                ObjType::BGA(_) => {
                    i = i + 1;
                },
                ObjType::LongNote(_) => {
                    i = i + 1;
                },
            }
        }
        proof {
            if !done {
                assert(due_scan(objs, i as int, elapsed) == (i as int, Seq::<
                    Alphanumeric,
                >::empty()));
                assert(keys@ + Seq::<Alphanumeric>::empty() =~= keys@);
            }
        }
        (i, keys)
    }
}

/// Scan the metadata entries from the latest backwards for the value
/// stored under `key`.
fn lookup_meta(metadata: &Vec<(String, String)>, key: &String) -> (r: Option<String>)
    ensures
        match meta_lookup(metadata@, key@) {
            Some(v) => r is Some && r->0@ == v,
            None => r is None,
        },
{
    let mut k: usize = metadata.len();
    proof {
        assert(metadata@.take(k as int) =~= metadata@);
    }
    while k > 0
        invariant
            k <= metadata@.len(),
            meta_lookup(metadata@, key@) == meta_lookup(metadata@.take(k as int), key@),
        decreases k,
    {
        k = k - 1;
        proof {
            let pre = metadata@.take(k as int + 1);
            assert(pre.last() == metadata@[k as int]);
            assert(pre.drop_last() =~= metadata@.take(k as int));
        }
        if metadata[k].0 == *key {
            return Some(metadata[k].1.clone());
        }
    }
    proof {
        assert(metadata@.take(0) =~= Seq::<(String, String)>::empty());
    }
    None
}

} // verus!
