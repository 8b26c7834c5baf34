//! The template cache: frozen host processes that requests fork instances
//! off. The base template for a service is brought up (prepare, start) and
//! frozen; a recipe's template is a fork of the base, initialized with the
//! recipe and frozen in turn, so sharing chains from the base through every
//! recipe template to the clones.
//!
//! A template expires when it has had no live descendant for its TTL. The
//! owner counts forks served minus exits reported, so a template with a live
//! descendant can never expire, and chains unwind leaf-first.

use super::api;
use super::api::Problem;
use crate::digest;
use crate::host::protocol::Reply;
use crate::host::protocol::Run;
use crate::manager;
use crate::manifest::Manifest;
use vstd::prelude::*;

verus! {

/// What identifies a template.
#[derive(Debug)]
pub struct Key {
    pub name: String,
    pub version: String,
    /// SHA-256 of the recipe bytes; `None` is the base template (prepared and
    /// started, initializer not run).
    pub recipe: Option<[u8; 32]>,
}

/// What a key is.
pub struct KeyView {
    pub name: Seq<char>,
    pub version: Seq<char>,
    pub recipe: Option<Seq<u8>>,
}

impl View for Key {
    type V = KeyView;

    open spec fn view(&self) -> KeyView {
        KeyView {
            name: self.name@,
            version: self.version@,
            recipe: match self.recipe {
                Some(recipe) => Some(recipe@),
                None => None,
            },
        }
    }
}

/// The key of a service's template for a recipe.
pub open spec fn key_of(manifest: Manifest, recipe: Option<Seq<u8>>) -> KeyView {
    KeyView {
        name: manifest.service.name@,
        version: manifest.service.version@,
        recipe: match recipe {
            Some(recipe) => Some(digest::sha256(recipe)),
            None => None,
        },
    }
}

/// The view of optional bytes.
pub open spec fn bytes_view(recipe: Option<&[u8]>) -> Option<Seq<u8>> {
    match recipe {
        Some(recipe) => Some(recipe@),
        None => None,
    }
}

impl Key {
    /// The key of a service's template for a recipe.
    pub fn new(manifest: &Manifest, recipe: Option<&[u8]>) -> (r: Self)
        ensures
            r@ == key_of(*manifest, bytes_view(recipe)),
    {
        Key {
            name: manifest.service.name.clone(),
            version: manifest.service.version.clone(),
            recipe: match recipe {
                Some(recipe) => Some(digest::digest(recipe)),
                None => None,
            },
        }
    }

    /// Whether the two are the same key.
    pub fn is_same(&self, other: &Key) -> (r: bool)
        ensures
            r == (self@ == other@),
    {
        let same_recipe: bool = match (&self.recipe, &other.recipe) {
            (Some(a), Some(b)) => crate::bytes::is_same(a, b),
            (None, None) => true,
            _ => false,
        };
        same_recipe && self.name == other.name && self.version == other.version
    }
}

/// A frozen template: its number, and whether it can still fork.
#[derive(Clone, Copy, Debug, PartialEq, Eq, Structural)]
pub struct Template {
    pub id: u64,
    /// Cleared when the template is gone: expired, failed or stopped.
    pub alive: bool,
}

/// A slot: where the requests for a key meet to bring up a template once. A
/// slot that is forgotten while requests hold it is theirs until they let go
/// of it; later requests for its key meet at another.
#[derive(Debug)]
pub struct Slot {
    pub id: u64,
    pub key: Key,
    /// Whether requests for the key find it.
    pub mapped: bool,
    /// Whether a request brings up a template for it.
    pub filling: bool,
    /// The template brought up last.
    pub template: Option<Template>,
    /// How many requests hold it.
    pub holders: u64,
}

/// What a slot is, but for its number.
pub struct SlotView {
    pub key: KeyView,
    pub mapped: bool,
    pub filling: bool,
    pub template: Option<Template>,
    pub holders: int,
}

impl View for Slot {
    type V = SlotView;

    open spec fn view(&self) -> SlotView {
        SlotView {
            key: self.key@,
            mapped: self.mapped,
            filling: self.filling,
            template: self.template,
            holders: self.holders as int,
        }
    }
}

/// How far a request is on its way to a template.
#[derive(Clone, Copy, Debug, PartialEq, Eq, Structural)]
pub struct Request {
    /// The base template it has got.
    pub base: Option<u64>,
    /// The slot it holds.
    pub slot: Option<u64>,
    /// Whether it brings up that slot's template.
    pub filling: bool,
}

impl Request {
    /// A request that has got nothing yet.
    pub fn new() -> (r: Self)
        ensures
            r == (Request { base: None, slot: None, filling: false }),
    {
        Request { base: None, slot: None, filling: false }
    }
}

/// What a request does for its template.
#[derive(Clone, Copy, Debug, PartialEq, Eq, Structural)]
pub enum Obtain {
    /// Fork this template.
    Use(u64),
    /// This is the base: go on with the recipe's template.
    Base(u64),
    /// Another request brings the template up: wait for it.
    Wait,
    /// Bring up the base template.
    FillBase,
    /// Bring up the recipe's template on this base.
    FillRecipe(u64),
}

/// The template that can still fork.
pub open spec fn live(template: Option<Template>) -> Option<u64> {
    match template {
        Some(template) => if template.alive {
            Some(template.id)
        } else {
            None
        },
        None => None,
    }
}

/// A slot that a request finds for its key where there is none yet, held by
/// that request.
pub open spec fn fresh(key: KeyView) -> SlotView {
    SlotView { key, mapped: true, filling: false, template: None, holders: 1 }
}

/// A slot once one more request holds it.
pub open spec fn taken(slot: SlotView) -> SlotView {
    SlotView { holders: slot.holders + 1, ..slot }
}

/// A slot once a request lets go of it: one that nothing finds and nothing
/// holds is gone, and none is filled that nothing holds.
pub open spec fn released(slot: SlotView) -> Option<SlotView> {
    let holders = if slot.holders <= 1 {
        0
    } else {
        slot.holders - 1
    };
    if !slot.mapped && holders == 0 {
        None
    } else {
        Some(SlotView { holders, filling: slot.filling && holders > 0, ..slot })
    }
}

/// A slot once it is forgotten: it stays with the requests that hold it.
pub open spec fn unmapped(slot: SlotView) -> Option<SlotView> {
    if slot.holders == 0 {
        None
    } else {
        Some(SlotView { mapped: false, ..slot })
    }
}

/// What a request that holds a slot does, given the base it has got, if any,
/// and whether it has a recipe: wait for a template that is being brought up,
/// use one that can still fork, or bring one up.
pub open spec fn entered(slot: SlotView, base: Option<u64>, recipe: bool) -> Obtain {
    if slot.filling {
        Obtain::Wait
    } else {
        match live(slot.template) {
            Some(id) => if base is None && recipe {
                Obtain::Base(id)
            } else {
                Obtain::Use(id)
            },
            None => match base {
                None => Obtain::FillBase,
                Some(base) => Obtain::FillRecipe(base),
            },
        }
    }
}

/// A slot once a request has entered it: the request holds it while it waits
/// or brings up a template.
pub open spec fn slot_entered(slot: SlotView) -> Option<SlotView> {
    if slot.filling {
        Some(slot)
    } else if live(slot.template) is Some {
        released(slot)
    } else {
        Some(SlotView { filling: true, ..slot })
    }
}

/// A request once it has entered a slot and does this.
pub open spec fn request_entered(request: Request, id: u64, does: Obtain) -> Request {
    match does {
        Obtain::Use(_) => Request { slot: None, filling: false, ..request },
        Obtain::Base(base) => Request { base: Some(base), slot: None, filling: false },
        Obtain::Wait => Request { slot: Some(id), filling: false, ..request },
        _ => Request { slot: Some(id), filling: true, ..request },
    }
}

/// A slot once its template has been brought up, or has not: what it held
/// stays then, which cannot fork.
pub open spec fn slot_filled(slot: SlotView, template: Option<u64>) -> Option<SlotView> {
    released(
        SlotView {
            filling: false,
            template: match template {
                Some(id) => Some(Template { id, alive: true }),
                None => slot.template,
            },
            ..slot
        },
    )
}

/// A request once it has brought a template up, or has not.
pub open spec fn request_filled(request: Request, template: Option<u64>) -> Request {
    Request {
        base: match request.base {
            None => template,
            Some(base) => Some(base),
        },
        slot: None,
        filling: false,
    }
}

/// What becomes of every slot at once.
#[derive(Debug)]
enum Change {
    Forget(Key),
    Clear,
    Prune,
    Died(u64),
}

/// What becomes of every slot at once.
pub enum ChangeView {
    /// The slot for a key is forgotten.
    Forget(KeyView),
    /// Every slot is forgotten.
    Clear,
    /// The slots that nobody holds and whose template cannot fork are
    /// forgotten.
    Prune,
    /// A template is gone.
    Died(u64),
}

impl View for Change {
    type V = ChangeView;

    closed spec fn view(&self) -> ChangeView {
        match self {
            Change::Forget(key) => ChangeView::Forget(key@),
            Change::Clear => ChangeView::Clear,
            Change::Prune => ChangeView::Prune,
            Change::Died(id) => ChangeView::Died(*id),
        }
    }
}

/// A slot after a change.
pub open spec fn changed(slot: SlotView, change: ChangeView) -> Option<SlotView> {
    match change {
        ChangeView::Forget(key) => if slot.mapped && slot.key == key {
            unmapped(slot)
        } else {
            Some(slot)
        },
        ChangeView::Clear => if slot.mapped {
            unmapped(slot)
        } else {
            Some(slot)
        },
        ChangeView::Prune => if slot.mapped && slot.holders == 0 && live(slot.template) is None {
            None
        } else {
            Some(slot)
        },
        ChangeView::Died(id) => Some(
            SlotView {
                template: match slot.template {
                    Some(template) => Some(
                        Template { alive: template.alive && template.id != id, ..template },
                    ),
                    None => None,
                },
                ..slot
            },
        ),
    }
}

impl Slot {
    /// The slot after a change.
    fn changed(self, change: &Change) -> (r: Option<Slot>)
        ensures
            match r {
                Some(slot) => slot.id == self.id && slot.key == self.key && changed(
                    self@,
                    change@,
                ) == Some(slot@),
                None => changed(self@, change@) is None,
            },
    {
        let mut slot = self;
        match change {
            Change::Forget(key) => {
                if slot.mapped && slot.key.is_same(key) {
                    if slot.holders == 0 {
                        return None;
                    }
                    slot.mapped = false;
                }
            },
            Change::Clear => {
                if slot.mapped {
                    if slot.holders == 0 {
                        return None;
                    }
                    slot.mapped = false;
                }
            },
            Change::Prune => {
                if slot.mapped && slot.holders == 0 && alive(slot.template).is_none() {
                    return None;
                }
            },
            Change::Died(id) => {
                slot.template = match slot.template {
                    Some(template) => Some(
                        Template { id: template.id, alive: template.alive && template.id != *id },
                    ),
                    None => None,
                };
            },
        }
        Some(slot)
    }
}

/// The template that can still fork.
fn alive(template: Option<Template>) -> (r: Option<u64>)
    ensures
        r == live(template),
{
    match template {
        Some(template) => if template.alive {
            Some(template.id)
        } else {
            None
        },
        None => None,
    }
}

/// Whether each slot has its own number, and each key one slot that requests
/// find.
pub open spec fn distinct(slots: Seq<Slot>) -> bool {
    forall|i: int, j: int|
        0 <= i < j < slots.len() ==> {
            &&& (#[trigger] slots[i]).id != (#[trigger] slots[j]).id
            &&& slots[i].mapped && slots[j].mapped ==> slots[i].key@ != slots[j].key@
        }
}

/// Whether the slot at an index has a number.
pub open spec fn stands_at(slots: Seq<Slot>, id: u64, i: int) -> bool {
    0 <= i < slots.len() && slots[i].id == id
}

/// The slot with a number.
pub open spec fn slot_of(slots: Seq<Slot>, id: u64) -> Option<SlotView> {
    if exists|i: int| stands_at(slots, id, i) {
        Some(slots[choose|i: int| stands_at(slots, id, i)]@)
    } else {
        None
    }
}

proof fn lemma_slot_at(slots: Seq<Slot>, k: int)
    requires
        distinct(slots),
        0 <= k < slots.len(),
    ensures
        slot_of(slots, slots[k].id) == Some(slots[k]@),
{
    assert(stands_at(slots, slots[k].id, k));
    let i = choose|i: int| stands_at(slots, slots[k].id, i);
    if i < k {
        assert(slots[i].id != slots[k].id);
    } else if k < i {
        assert(slots[k].id != slots[i].id);
    }
}

/// Two lists of slots of which one has a slot with a number where the other
/// has it, and the same one, hold the same under that number.
proof fn lemma_same_slot(slots: Seq<Slot>, now: Seq<Slot>, id: u64)
    requires
        distinct(slots),
        distinct(now),
        forall|i: int|
            0 <= i < slots.len() && (#[trigger] slots[i]).id == id ==> exists|j: int|
                0 <= j < now.len() && (#[trigger] now[j]).id == id && now[j]@ == slots[i]@,
        forall|j: int|
            0 <= j < now.len() && (#[trigger] now[j]).id == id ==> exists|i: int|
                0 <= i < slots.len() && (#[trigger] slots[i]).id == id,
    ensures
        slot_of(now, id) == slot_of(slots, id),
{
    if exists|i: int| stands_at(slots, id, i) {
        let i = choose|i: int| stands_at(slots, id, i);
        lemma_slot_at(slots, i);
        let j = choose|j: int|
            0 <= j < now.len() && (#[trigger] now[j]).id == id && now[j]@ == slots[i]@;
        lemma_slot_at(now, j);
    } else if exists|j: int| stands_at(now, id, j) {
        let j = choose|j: int| stands_at(now, id, j);
        assert(now[j].id == id);
        let i = choose|i: int| 0 <= i < slots.len() && (#[trigger] slots[i]).id == id;
        assert(stands_at(slots, id, i));
    }
}

/// The templates a serving manager holds, filled on demand.
#[derive(Debug)]
pub struct Templates {
    pub slots: Vec<Slot>,
    /// How often a request has taken hold of a slot; the number of the next
    /// slot.
    pub next: u64,
}

/// The key of the slot that a request enters next.
pub open spec fn key_wanted(
    manifest: Manifest,
    recipe: Option<Seq<u8>>,
    request: Request,
) -> KeyView {
    key_of(
        manifest,
        if request.base is None {
            None
        } else {
            recipe
        },
    )
}

/// What requests do to the templates, and what they are told.
pub open spec fn obtains(
    before: Templates,
    manifest: Manifest,
    recipe: Option<Seq<u8>>,
    request: Request,
    after: Templates,
    then: Request,
    does: Obtain,
) -> bool {
    if recipe is None && request.base is Some {
        &&& does == Obtain::Use(request.base->0)
        &&& after == before
        &&& then == request
    } else {
        let (id, slot) = before.reached(manifest, recipe, request);
        &&& does == entered(slot, request.base, recipe is Some)
        &&& then == request_entered(request, id, does)
        &&& after.next == before.next + if before.waits(request) {
            0int
        } else {
            1
        }
        &&& forall|other: u64| #[trigger]
            after.held(other) == if other == id {
                slot_entered(slot)
            } else {
                before.held(other)
            }
    }
}

/// What becomes of the templates once a request has brought one up, or has
/// not. A request that brings up none changes nothing.
pub open spec fn fills(
    before: Templates,
    request: Request,
    template: Option<u64>,
    after: Templates,
    then: Request,
) -> bool {
    if before.fills(request) {
        let id = request.slot->0;
        &&& after.next == before.next
        &&& then == request_filled(request, template)
        &&& forall|other: u64| #[trigger]
            after.held(other) == if other == id {
                slot_filled(before.held(id)->0, template)
            } else {
                before.held(other)
            }
    } else {
        after == before && then == request
    }
}

/// What becomes of the templates once every slot has changed.
pub open spec fn changes(before: Templates, change: ChangeView, after: Templates) -> bool {
    &&& after.next == before.next
    &&& forall|id: u64| #[trigger]
        after.held(id) == match before.held(id) {
            Some(slot) => changed(slot, change),
            None => None,
        }
}

impl Templates {
    /// Each slot has its own number and each key one slot that requests find;
    /// a slot is filled by a request that holds it, where it has no template
    /// that can fork, and one that requests do not find is held.
    pub open spec fn valid(self) -> bool {
        &&& distinct(self.slots@)
        &&& forall|i: int|
            0 <= i < self.slots@.len() ==> {
                let slot = #[trigger] self.slots@[i];
                &&& slot.id < self.next
                &&& slot.holders <= self.next
                &&& slot.filling ==> slot.holders > 0 && live(slot.template) is None
                &&& slot.mapped || slot.holders > 0
            }
    }

    /// The slot with a number.
    pub open spec fn held(self, id: u64) -> Option<SlotView> {
        slot_of(self.slots@, id)
    }

    /// Whether requests for a key find the slot with a number.
    pub open spec fn finds(self, key: KeyView, id: u64) -> bool {
        self.held(id) matches Some(slot) && slot.mapped && slot.key == key
    }

    /// The slot that requests for a key find.
    pub open spec fn found(self, key: KeyView) -> Option<u64> {
        if exists|id: u64| #[trigger] self.finds(key, id) {
            Some(choose|id: u64| #[trigger] self.finds(key, id))
        } else {
            None
        }
    }

    /// Whether a request holds a slot.
    pub open spec fn waits(self, request: Request) -> bool {
        request.slot matches Some(id) && self.held(id) matches Some(slot) && slot.holders > 0
    }

    /// Whether a request brings up the template of a slot.
    pub open spec fn fills(self, request: Request) -> bool {
        request.filling && self.waits(request) && (self.held(request.slot->0)->0).filling
    }

    /// The slot a request enters: the one it holds, else the one it finds for
    /// its key, else a fresh one. The base comes before the recipe.
    pub open spec fn reached(
        self,
        manifest: Manifest,
        recipe: Option<Seq<u8>>,
        request: Request,
    ) -> (u64, SlotView) {
        let key = key_wanted(manifest, recipe, request);
        if self.waits(request) {
            (request.slot->0, self.held(request.slot->0)->0)
        } else {
            match self.found(key) {
                Some(id) => (id, taken(self.held(id)->0)),
                None => (self.next, fresh(key)),
            }
        }
    }

    /// No templates.
    pub fn new() -> (r: Self)
        ensures
            r.valid(),
            r.slots@ == Seq::<Slot>::empty(),
            r.next == 0,
    {
        Templates { slots: Vec::new(), next: 0 }
    }

    /// A key has one slot that requests find.
    proof fn lemma_found(self, key: KeyView, a: u64)
        requires
            self.valid(),
            self.finds(key, a),
        ensures
            self.found(key) == Some(a),
    {
        let b = choose|id: u64| #[trigger] self.finds(key, id);
        let i = choose|i: int| stands_at(self.slots@, a, i);
        let j = choose|j: int| stands_at(self.slots@, b, j);
        if i < j {
            assert(self.slots@[i].key@ != self.slots@[j].key@);
        } else if j < i {
            assert(self.slots@[j].key@ != self.slots@[i].key@);
        }
    }

    /// The index of the slot with a number.
    fn find(&self, id: u64) -> (r: Option<usize>)
        requires
            self.valid(),
        ensures
            match r {
                Some(at) => at < self.slots@.len() && self.slots@[at as int].id == id && self.held(
                    id,
                ) == Some(self.slots@[at as int]@),
                None => self.held(id) is None,
            },
    {
        let mut i: usize = 0;
        while i < self.slots.len()
            invariant
                self.valid(),
                i <= self.slots@.len(),
                forall|j: int| 0 <= j < i ==> (#[trigger] self.slots@[j]).id != id,
            decreases self.slots@.len() - i,
        {
            if self.slots[i].id == id {
                proof {
                    lemma_slot_at(self.slots@, i as int);
                }
                return Some(i);
            }
            i = i + 1;
        }
        proof {
            if exists|j: int| stands_at(self.slots@, id, j) {
                let j = choose|j: int| stands_at(self.slots@, id, j);
                assert(self.slots@[j].id != id);
            }
        }
        None
    }

    /// The index of the slot that a request holds.
    fn find_held(&self, request: &Request) -> (r: Option<usize>)
        requires
            self.valid(),
        ensures
            match r {
                Some(at) => {
                    &&& self.waits(*request)
                    &&& at < self.slots@.len()
                    &&& request.slot == Some(self.slots@[at as int].id)
                    &&& self.held(request.slot->0) == Some(self.slots@[at as int]@)
                },
                None => !self.waits(*request),
            },
    {
        match request.slot {
            Some(id) => match self.find(id) {
                Some(at) => if self.slots[at].holders > 0 {
                    Some(at)
                } else {
                    None
                },
                None => None,
            },
            None => None,
        }
    }

    /// The index of the slot that requests for a key find.
    fn look_up(&self, key: &Key) -> (r: Option<usize>)
        requires
            self.valid(),
        ensures
            match r {
                Some(at) => at < self.slots@.len() && self.finds(
                    key@,
                    self.slots@[at as int].id,
                ) && self.held(self.slots@[at as int].id) == Some(self.slots@[at as int]@),
                None => (forall|id: u64| !#[trigger] self.finds(key@, id)) && (forall|i: int|
                    0 <= i < self.slots@.len() && (#[trigger] self.slots@[i]).mapped
                        ==> self.slots@[i].key@ != key@),
            },
    {
        let mut i: usize = 0;
        while i < self.slots.len()
            invariant
                self.valid(),
                i <= self.slots@.len(),
                forall|j: int|
                    0 <= j < i && (#[trigger] self.slots@[j]).mapped ==> self.slots@[j].key@
                        != key@,
            decreases self.slots@.len() - i,
        {
            if self.slots[i].mapped && self.slots[i].key.is_same(key) {
                proof {
                    lemma_slot_at(self.slots@, i as int);
                }
                return Some(i);
            }
            i = i + 1;
        }
        proof {
            assert forall|id: u64| !#[trigger] self.finds(key@, id) by {
                if self.finds(key@, id) {
                    let j = choose|j: int| stands_at(self.slots@, id, j);
                    assert(self.slots@[j].key@ != key@);
                }
            }
        }
        None
    }

    /// Sets what the slot at an index holds. One that nothing finds and
    /// nothing holds then is gone.
    fn put(&mut self, at: usize, filling: bool, template: Option<Template>, holders: u64)
        requires
            old(self).valid(),
            at < old(self).slots@.len(),
            filling ==> holders > 0 && live(template) is None,
            holders <= old(self).next,
        ensures
            final(self).valid(),
            final(self).next == old(self).next,
            forall|id: u64| #[trigger]
                final(self).held(id) == if id == old(self).slots@[at as int].id {
                    let slot = old(self).slots@[at as int]@;
                    if !slot.mapped && holders == 0 {
                        None
                    } else {
                        Some(SlotView { filling, template, holders: holders as int, ..slot })
                    }
                } else {
                    old(self).held(id)
                },
    {
        let ghost before = self.slots@;
        let ghost changed_id = before[at as int].id;
        if !self.slots[at].mapped && holders == 0 {
            let _slot = self.slots.remove(at);
            proof {
                let now = self.slots@;
                assert(now =~= before.remove(at as int));
                assert forall|i: int| 0 <= i < now.len() implies #[trigger] now[i] == before[if i
                    < at {
                    i
                } else {
                    i + 1
                }] by {}
                assert forall|i: int, j: int| 0 <= i < j < now.len() implies {
                    &&& (#[trigger] now[i]).id != (#[trigger] now[j]).id
                    &&& now[i].mapped && now[j].mapped ==> now[i].key@ != now[j].key@
                } by {
                    let a = if i < at {
                        i
                    } else {
                        i + 1
                    };
                    let b = if j < at {
                        j
                    } else {
                        j + 1
                    };
                    assert(before[a].id != before[b].id);
                }
                assert forall|id: u64| #[trigger]
                    slot_of(now, id) == if id == changed_id {
                        None
                    } else {
                        slot_of(before, id)
                    } by {
                    if id == changed_id {
                        if exists|j: int| stands_at(now, id, j) {
                            let j = choose|j: int| stands_at(now, id, j);
                            if j < at {
                                assert(before[j].id != before[at as int].id);
                            } else {
                                assert(before[at as int].id != before[j + 1].id);
                            }
                        }
                    } else {
                        assert forall|i: int|
                            0 <= i < before.len() && (#[trigger] before[i]).id
                                == id implies exists|j: int|
                            0 <= j < now.len() && (#[trigger] now[j]).id == id && now[j]@
                                == before[i]@ by {
                            if i < at {
                                assert(now[i] == before[i]);
                            } else {
                                assert(now[i - 1] == before[i]);
                            }
                        }
                        lemma_same_slot(before, now, id);
                    }
                }
            }
            return ;
        }
        self.slots[at].filling = filling;
        self.slots[at].template = template;
        self.slots[at].holders = holders;
        proof {
            let now = self.slots@;
            assert(now =~= before.update(at as int, now[at as int]));
            assert forall|i: int, j: int| 0 <= i < j < now.len() implies {
                &&& (#[trigger] now[i]).id != (#[trigger] now[j]).id
                &&& now[i].mapped && now[j].mapped ==> now[i].key@ != now[j].key@
            } by {
                assert(before[i].id != before[j].id);
            }
            assert forall|i: int| 0 <= i < now.len() && i != at implies #[trigger] now[i]
                == before[i] by {}
            lemma_slot_at(now, at as int);
            assert forall|id: u64| id != changed_id implies #[trigger] slot_of(now, id) == slot_of(
                before,
                id,
            ) by {
                assert forall|i: int|
                    0 <= i < before.len() && (#[trigger] before[i]).id == id implies exists|
                    j: int,
                | 0 <= j < now.len() && (#[trigger] now[j]).id == id && now[j]@ == before[i]@ by {
                    assert(now[i] == before[i]);
                }
                assert forall|j: int| 0 <= j < now.len() && (#[trigger] now[j]).id == id implies exists|
                    i: int,
                | 0 <= i < before.len() && (#[trigger] before[i]).id == id by {
                    assert(before[j].id == id);
                }
                lemma_same_slot(before, now, id);
            }
        }
    }

    /// Adds a slot for a key that has none, held by a request that brings up
    /// its template.
    fn add(&mut self, key: Key)
        requires
            old(self).valid(),
            old(self).next < u64::MAX,
            forall|i: int|
                0 <= i < old(self).slots@.len() && (#[trigger] old(self).slots@[i]).mapped
                    ==> old(self).slots@[i].key@ != key@,
        ensures
            final(self).valid(),
            final(self).next == old(self).next + 1,
            forall|id: u64| #[trigger]
                final(self).held(id) == if id == old(self).next {
                    Some(SlotView { filling: true, ..fresh(key@) })
                } else {
                    old(self).held(id)
                },
    {
        let ghost before = self.slots@;
        let id = self.next;
        self.slots.push(
            Slot { id, key, mapped: true, filling: true, template: None, holders: 1 },
        );
        self.next = id + 1;
        proof {
            let now = self.slots@;
            let at = before.len() as int;
            assert forall|i: int| 0 <= i < at implies #[trigger] now[i] == before[i] by {}
            assert forall|i: int, j: int| 0 <= i < j < now.len() implies {
                &&& (#[trigger] now[i]).id != (#[trigger] now[j]).id
                &&& now[i].mapped && now[j].mapped ==> now[i].key@ != now[j].key@
            } by {
                if j < at {
                    assert(before[i].id != before[j].id);
                } else {
                    assert(before[i].id < id);
                }
            }
            lemma_slot_at(now, at);
            assert forall|other: u64| other != id implies #[trigger] slot_of(now, other)
                == slot_of(before, other) by {
                assert forall|i: int|
                    0 <= i < before.len() && (#[trigger] before[i]).id == other implies exists|
                    j: int,
                | 0 <= j < now.len() && (#[trigger] now[j]).id == other && now[j]@ == before[i]@ by {
                    assert(now[i] == before[i]);
                }
                assert forall|j: int|
                    0 <= j < now.len() && (#[trigger] now[j]).id == other implies exists|i: int|
                    0 <= i < before.len() && (#[trigger] before[i]).id == other by {
                    assert(before[j] == now[j]);
                }
                lemma_same_slot(before, now, other);
            }
        }
    }

    /// The template a request forks from, or what has to be done for it: the
    /// base first, then the recipe's. The slot of a template that the request
    /// has to bring up is marked, so fills for one slot run once and the other
    /// requests wait.
    pub fn obtain(
        &mut self,
        manifest: &Manifest,
        recipe: Option<&[u8]>,
        request: &mut Request,
    ) -> (r: Obtain)
        requires
            old(self).valid(),
            old(self).next < u64::MAX,
        ensures
            final(self).valid(),
            obtains(
                *old(self),
                *manifest,
                bytes_view(recipe),
                *old(request),
                *final(self),
                *final(request),
                r,
            ),
    {
        let base = request.base;
        let has_recipe = recipe.is_some();
        if let Some(id) = base {
            if !has_recipe {
                return Obtain::Use(id);
            }
        }
        let held = self.find_held(request);
        let waits = held.is_some();
        let found = match held {
            Some(at) => Some(at),
            None => {
                let key = Key::new(
                    manifest,
                    if base.is_none() {
                        None
                    } else {
                        recipe
                    },
                );
                match self.look_up(&key) {
                    Some(at) => {
                        proof {
                            self.lemma_found(key@, self.slots@[at as int].id);
                        }
                        Some(at)
                    },
                    None => {
                        let id = self.next;
                        self.add(key);
                        request.slot = Some(id);
                        request.filling = true;
                        None
                    },
                }
            },
        };
        let at = match found {
            None => {
                return match base {
                    None => Obtain::FillBase,
                    Some(base) => Obtain::FillRecipe(base),
                };
            },
            Some(at) => at,
        };
        let id = self.slots[at].id;
        let mut holders = self.slots[at].holders;
        if !waits {
            holders = holders + 1;
            self.next = self.next + 1;
        }
        let filling = self.slots[at].filling;
        let template = self.slots[at].template;
        if filling {
            self.put(at, true, template, holders);
            request.slot = Some(id);
            request.filling = false;
            return Obtain::Wait;
        }
        match alive(template) {
            Some(live) => {
                self.put(
                    at,
                    false,
                    template,
                    if holders <= 1 {
                        0
                    } else {
                        holders - 1
                    },
                );
                request.slot = None;
                request.filling = false;
                if base.is_none() && has_recipe {
                    request.base = Some(live);
                    Obtain::Base(live)
                } else {
                    Obtain::Use(live)
                }
            },
            None => {
                self.put(at, true, template, holders);
                request.slot = Some(id);
                request.filling = true;
                match base {
                    None => Obtain::FillBase,
                    Some(base) => Obtain::FillRecipe(base),
                }
            },
        }
    }

    /// A request has brought up the template of the slot it holds, or has not:
    /// a failed fill is retried by the next request. A slot that was forgotten
    /// meanwhile stays forgotten; only the requests that wait for it see the
    /// template.
    pub fn filled(&mut self, request: &mut Request, template: Option<u64>)
        requires
            old(self).valid(),
        ensures
            final(self).valid(),
            fills(*old(self), *old(request), template, *final(self), *final(request)),
    {
        if !request.filling {
            return ;
        }
        let held = self.find_held(request);
        if let Some(at) = held {
            if !self.slots[at].filling {
                return ;
            }
            let holders = self.slots[at].holders;
            let kept = match template {
                Some(id) => Some(Template { id, alive: true }),
                None => self.slots[at].template,
            };
            self.put(
                at,
                false,
                kept,
                if holders <= 1 {
                    0
                } else {
                    holders - 1
                },
            );
            request.slot = None;
            request.filling = false;
            if request.base.is_none() {
                request.base = template;
            }
        }
    }

    /// A request goes away: it lets go of the slot it holds, and leaves a
    /// template it was bringing up to the next one.
    pub fn leave(&mut self, request: &mut Request)
        requires
            old(self).valid(),
        ensures
            final(self).valid(),
            if old(self).fills(*old(request)) {
                fills(*old(self), *old(request), None, *final(self), *final(request))
            } else if old(self).waits(*old(request)) {
                &&& final(self).next == old(self).next
                &&& *final(request) == (Request { slot: None, filling: false, ..*old(request) })
                &&& forall|other: u64| #[trigger]
                    final(self).held(other) == if other == old(request).slot->0 {
                        released(old(self).held(other)->0)
                    } else {
                        old(self).held(other)
                    }
            } else {
                *final(self) == *old(self) && *final(request) == *old(request)
            },
    {
        let held = self.find_held(request);
        if let Some(at) = held {
            if request.filling && self.slots[at].filling {
                self.filled(request, None);
                return ;
            }
            let holders = self.slots[at].holders;
            let filling = self.slots[at].filling && holders > 1;
            let template = self.slots[at].template;
            self.put(
                at,
                filling,
                template,
                if holders <= 1 {
                    0
                } else {
                    holders - 1
                },
            );
            request.slot = None;
            request.filling = false;
        }
    }

    /// Changes every slot.
    fn change(&mut self, change: Change)
        requires
            old(self).valid(),
        ensures
            final(self).valid(),
            changes(*old(self), change@, *final(self)),
    {
        let ghost all = self.slots@;
        let ghost next = self.next;
        let mut rest: Vec<Slot> = Vec::new();
        std::mem::swap(&mut rest, &mut self.slots);
        let mut kept: Vec<Slot> = Vec::new();
        let ghost mut left: int = all.len() as int;
        proof {
            assert(all.take(left) =~= all);
        }
        while rest.len() > 0
            invariant
                self.next == next,
                distinct(all),
                0 <= left <= all.len(),
                rest@ == all.take(left),
                half_changed(kept@, all, left, change@),
            decreases rest@.len(),
        {
            let ghost before = kept@;
            if let Some(slot) = rest.pop() {
                proof {
                    left = left - 1;
                    assert(slot == all[left]);
                    assert(rest@ =~= all.take(left));
                }
                match slot.changed(&change) {
                    Some(now) => {
                        proof {
                            lemma_one_more(before, now, all, left, change@);
                        }
                        kept.push(now);
                    },
                    None => {
                        proof {
                            lemma_one_gone(before, all, left, change@);
                        }
                    },
                }
            }
        }
        self.slots = kept;
        proof {
            lemma_all_changed(self.slots@, all, change@);
            let now = self.slots@;
            assert forall|j: int| 0 <= j < now.len() implies {
                let slot = #[trigger] now[j];
                &&& slot.id < self.next
                &&& slot.holders <= self.next
                &&& slot.filling ==> slot.holders > 0 && live(slot.template) is None
                &&& slot.mapped || slot.holders > 0
            } by {
                assert(has_source(now[j], all, 0, change@));
                let i = choose|i: int|
                    0 <= i < all.len() && #[trigger] comes_of(now[j], all[i], change@);
                assert(all[i].id < next);
            }
        }
    }

    /// Forgets the template for the request, after a failed fork, so the next
    /// `obtain` rebuilds it.
    pub fn forget(&mut self, manifest: &Manifest, recipe: Option<&[u8]>)
        requires
            old(self).valid(),
        ensures
            final(self).valid(),
            changes(
                *old(self),
                ChangeView::Forget(key_of(*manifest, bytes_view(recipe))),
                *final(self),
            ),
    {
        self.change(Change::Forget(Key::new(manifest, recipe)));
    }

    /// A template is gone: expired, failed or stopped.
    pub fn died(&mut self, id: u64)
        requires
            old(self).valid(),
        ensures
            final(self).valid(),
            changes(*old(self), ChangeView::Died(id), *final(self)),
    {
        self.change(Change::Died(id));
    }

    /// Drops every template.
    pub fn clear(&mut self)
        requires
            old(self).valid(),
        ensures
            final(self).valid(),
            changes(*old(self), ChangeView::Clear, *final(self)),
    {
        self.change(Change::Clear);
    }

    /// Removes the slots of templates that are gone, so keys never requested
    /// again do not accumulate. Slots that a request holds are left alone.
    pub fn prune(&mut self)
        requires
            old(self).valid(),
        ensures
            final(self).valid(),
            changes(*old(self), ChangeView::Prune, *final(self)),
    {
        self.change(Change::Prune);
    }
}

/// Whether a slot is what another has become by a change.
spec fn comes_of(now: Slot, slot: Slot, change: ChangeView) -> bool {
    now.id == slot.id && now.key == slot.key && changed(slot@, change) == Some(now@)
}

/// Whether a slot is what one of those from `left` on has become.
spec fn has_source(now: Slot, all: Seq<Slot>, left: int, change: ChangeView) -> bool {
    exists|i: int| left <= i < all.len() && #[trigger] comes_of(now, all[i], change)
}

/// Whether one of these is what a slot has become.
spec fn has_result(slot: Slot, kept: Seq<Slot>, change: ChangeView) -> bool {
    exists|j: int| 0 <= j < kept.len() && #[trigger] comes_of(kept[j], slot, change)
}

/// Whether these are what the slots from `left` on have become by a change.
spec fn half_changed(kept: Seq<Slot>, all: Seq<Slot>, left: int, change: ChangeView) -> bool {
    &&& distinct(kept)
    &&& forall|j: int| 0 <= j < kept.len() ==> #[trigger] has_source(kept[j], all, left, change)
    &&& forall|i: int|
        left <= i < all.len() && changed(all[i]@, change) is Some ==> #[trigger] has_result(
            all[i],
            kept,
            change,
        )
}

/// One more slot is gone.
proof fn lemma_one_gone(kept: Seq<Slot>, all: Seq<Slot>, left: int, change: ChangeView)
    requires
        0 <= left < all.len(),
        half_changed(kept, all, left + 1, change),
        changed(all[left]@, change) is None,
    ensures
        half_changed(kept, all, left, change),
{
    assert forall|j: int| 0 <= j < kept.len() implies #[trigger] has_source(
        kept[j],
        all,
        left,
        change,
    ) by {
        assert(has_source(kept[j], all, left + 1, change));
    }
}

/// One more slot has changed.
proof fn lemma_one_more(
    before: Seq<Slot>,
    now: Slot,
    all: Seq<Slot>,
    left: int,
    change: ChangeView,
)
    requires
        distinct(all),
        0 <= left < all.len(),
        half_changed(before, all, left + 1, change),
        comes_of(now, all[left], change),
    ensures
        half_changed(before.push(now), all, left, change),
{
    let kept = before.push(now);
    let last = before.len() as int;
    assert(kept[last] == now);
    assert forall|j: int| 0 <= j < kept.len() implies #[trigger] has_source(
        kept[j],
        all,
        left,
        change,
    ) by {
        if j < last {
            assert(kept[j] == before[j]);
            assert(has_source(before[j], all, left + 1, change));
        } else {
            assert(comes_of(kept[j], all[left], change));
        }
    }
    assert forall|i: int|
        left <= i < all.len() && changed(all[i]@, change) is Some implies #[trigger] has_result(
        all[i],
        kept,
        change,
    ) by {
        if i > left {
            assert(has_result(all[i], before, change));
            let j = choose|j: int|
                0 <= j < before.len() && #[trigger] comes_of(before[j], all[i], change);
            assert(comes_of(kept[j], all[i], change));
        } else {
            assert(comes_of(kept[last], all[i], change));
        }
    }
    assert forall|a: int, b: int| 0 <= a < b < kept.len() implies {
        &&& (#[trigger] kept[a]).id != (#[trigger] kept[b]).id
        &&& kept[a].mapped && kept[b].mapped ==> kept[a].key@ != kept[b].key@
    } by {
        assert(kept[a] == before[a]);
        if b == last {
            assert(has_source(before[a], all, left + 1, change));
            let i = choose|i: int|
                left + 1 <= i < all.len() && #[trigger] comes_of(before[a], all[i], change);
            assert(all[left].id != all[i].id);
        } else {
            assert(before[a].id != before[b].id);
        }
    }
}

/// What every slot has become by a change is found under its number.
proof fn lemma_all_changed(now: Seq<Slot>, all: Seq<Slot>, change: ChangeView)
    requires
        distinct(all),
        half_changed(now, all, 0, change),
    ensures
        forall|id: u64| #[trigger]
            slot_of(now, id) == match slot_of(all, id) {
                Some(slot) => changed(slot, change),
                None => None,
            },
{
    assert forall|id: u64| #[trigger]
        slot_of(now, id) == match slot_of(all, id) {
            Some(slot) => changed(slot, change),
            None => None,
        } by {
        if exists|j: int| stands_at(now, id, j) {
            let j = choose|j: int| stands_at(now, id, j);
            lemma_slot_at(now, j);
            assert(has_source(now[j], all, 0, change));
            let i = choose|i: int|
                0 <= i < all.len() && #[trigger] comes_of(now[j], all[i], change);
            lemma_slot_at(all, i);
        } else if exists|i: int| stands_at(all, id, i) {
            let i = choose|i: int| stands_at(all, id, i);
            lemma_slot_at(all, i);
            if changed(all[i]@, change) is Some {
                assert(has_result(all[i], now, change));
                let j = choose|j: int|
                    0 <= j < now.len() && #[trigger] comes_of(now[j], all[i], change);
                assert(stands_at(now, id, j));
            }
        }
    }
}

/// How long a template lives with no live descendant, in seconds.
pub const DEFAULT_TEMPLATE_TTL: u64 = 300;

/// How many of the events are the exits of reaped clones.
pub open spec fn child_exits(events: Seq<Reply>) -> nat
    decreases events.len(),
{
    if events.len() == 0 {
        0
    } else if manager::is_child_exit(events.last()) {
        child_exits(events.drop_last()) + 1
    } else {
        child_exits(events.drop_last())
    }
}

/// Whether an event of the template's host is a reaped clone's exit.
pub fn is_child_exit(event: &Reply) -> (r: bool)
    ensures
        r == manager::is_child_exit(*event),
{
    match event {
        Reply::Exited { run, .. } => *run == Run::Child,
        _ => false,
    }
}

/// Counts the exits of reaped clones among the events.
pub fn count_child_exits(events: &Vec<Reply>) -> (r: usize)
    ensures
        r == child_exits(events@),
{
    let mut exits: usize = 0;
    let mut i: usize = 0;
    while i < events.len()
        invariant
            i <= events@.len(),
            exits <= i,
            exits == child_exits(events@.take(i as int)),
        decreases events@.len() - i,
    {
        proof {
            assert(events@.take(i + 1).drop_last() =~= events@.take(i as int));
        }
        if is_child_exit(&events[i]) {
            exits = exits + 1;
        }
        i = i + 1;
    }
    proof {
        assert(events@.take(i as int) =~= events@);
    }
    exits
}

/// What a look at a template's control channel found.
#[derive(Debug)]
pub enum Polled {
    /// Nothing is waiting.
    Nothing,
    /// The look was interrupted.
    Interrupted,
    /// An event was read.
    Event(Reply),
    /// The channel, or what came on it, is broken.
    Broken,
}

/// What follows from a look at a template's control channel.
#[derive(Clone, Copy, Debug, PartialEq, Eq, Structural)]
pub enum Drained {
    /// Look again.
    Again,
    /// Everything waiting has been read.
    Done,
    /// The channel is gone.
    Gone,
}

/// Reads whatever the host has sent, counting the reaped clones' exits.
#[derive(Clone, Copy, Debug, PartialEq, Eq, Structural)]
pub struct Drain {
    pub exits: usize,
}

impl Drain {
    /// Nothing read yet.
    pub fn new() -> (r: Self)
        ensures
            r.exits == 0,
    {
        Drain { exits: 0 }
    }

    /// Takes what a look found.
    pub fn step(&mut self, polled: &Polled) -> (r: Drained)
        requires
            old(self).exits < usize::MAX,
        ensures
            r == match polled {
                Polled::Nothing => Drained::Done,
                Polled::Broken => Drained::Gone,
                _ => Drained::Again,
            },
            final(self).exits == old(self).exits + if polled matches Polled::Event(event)
                && manager::is_child_exit(*event) {
                1int
            } else {
                0
            },
    {
        match polled {
            Polled::Nothing => Drained::Done,
            Polled::Interrupted => Drained::Again,
            Polled::Broken => Drained::Gone,
            Polled::Event(event) => {
                if is_child_exit(event) {
                    self.exits = self.exits + 1;
                }
                Drained::Again
            },
        }
    }
}

/// How far the owner of a template has brought it.
#[derive(Clone, Copy, Debug, PartialEq, Eq, Structural)]
pub enum Stage {
    /// A base template's host is being spawned.
    Spawning,
    /// The prepare step runs.
    Preparing,
    /// The guest is being started.
    Starting,
    /// The initializer runs in a recipe template's host.
    Initializing,
    /// The host is being frozen.
    Freezing,
    /// The template is frozen and handed to its creator.
    Offering,
    /// The template serves forks.
    Serving,
    /// The template is gone.
    Gone,
}

/// The owner of a template: brings it to frozen, then serves forks until every
/// handle is dropped, the template goes its TTL without a live descendant, or
/// its host fails. Times are in nanoseconds on one clock.
#[derive(Clone, Copy, Debug, PartialEq, Eq, Structural)]
pub struct Owner {
    pub stage: Stage,
    pub has_prepare: bool,
    pub ttl: u128,
    /// The live descendants: forks served less exits reported.
    pub children: usize,
    /// Since when there has been no live descendant.
    pub idle_since: u128,
}

/// What happened to a template.
#[derive(Debug)]
pub enum OwnerEvent {
    Spawned(Result<(), String>),
    /// The prepare step's status.
    Prepared(Result<i32, String>),
    Started(Result<(), String>),
    /// The initializer's status.
    Initialized(Result<i32, String>),
    Froze(Result<(), String>),
    /// Whether the creator was still there to take the template.
    Offered(bool),
    /// A fork was asked for; the number of exits that came in with it.
    Forked(Result<usize, String>),
    /// Nothing was asked for; the number of exits that came in meanwhile, or
    /// `None` where the host went away.
    Idle(Option<usize>),
    /// Every handle was dropped.
    Dropped,
}

/// What the owner does about it.
#[derive(Debug)]
pub enum OwnerAction {
    /// Nothing is due.
    Wait,
    Prepare,
    Start,
    Freeze,
    /// Tell the creator that the template is ready.
    Offer,
    /// Tell the creator what went wrong, after killing the host where it is
    /// still there.
    Fail { problem: Problem, kill: bool },
    /// Stop the host in good order.
    Stop,
    /// Kill the host.
    Kill,
}

/// What the owner does, over the problem's texts.
pub enum OwnerAct {
    Wait,
    Prepare,
    Start,
    Freeze,
    Offer,
    Fail { problem: api::ProblemView, kill: bool },
    Stop,
    Kill,
}

impl View for OwnerAction {
    type V = OwnerAct;

    open spec fn view(&self) -> OwnerAct {
        match self {
            OwnerAction::Wait => OwnerAct::Wait,
            OwnerAction::Prepare => OwnerAct::Prepare,
            OwnerAction::Start => OwnerAct::Start,
            OwnerAction::Freeze => OwnerAct::Freeze,
            OwnerAction::Offer => OwnerAct::Offer,
            OwnerAction::Fail { problem, kill } => OwnerAct::Fail {
                problem: problem@,
                kill: *kill,
            },
            OwnerAction::Stop => OwnerAct::Stop,
            OwnerAction::Kill => OwnerAct::Kill,
        }
    }
}

/// The descendants left alive after forks and exits; an exit too many counts
/// for nothing.
pub open spec fn settled(children: int, forks: int, exits: int) -> int {
    if children + forks < exits {
        0
    } else {
        children + forks - exits
    }
}

/// Whether `ttl` has gone by since a time.
pub open spec fn has_passed(since: u128, now: u128, ttl: u128) -> bool {
    if now < since {
        ttl == 0
    } else {
        now - since >= ttl
    }
}

impl Owner {
    /// The same owner at another stage.
    pub open spec fn at(self, stage: Stage) -> Owner {
        Owner { stage, ..self }
    }

    /// The template gone, because of a problem.
    pub open spec fn failed(self, problem: api::ProblemView, kill: bool) -> (Owner, OwnerAct) {
        (self.at(Stage::Gone), OwnerAct::Fail { problem, kill })
    }

    /// What the owner has after an event, and what it does about it.
    pub open spec fn stepped(self, event: OwnerEvent, now: u128) -> (Owner, OwnerAct) {
        match (self.stage, event) {
            (Stage::Spawning, OwnerEvent::Spawned(Ok(_))) => if self.has_prepare {
                (self.at(Stage::Preparing), OwnerAct::Prepare)
            } else {
                (self.at(Stage::Starting), OwnerAct::Start)
            },
            (Stage::Spawning, OwnerEvent::Spawned(Err(error))) => self.failed(
                api::bring_up_failed_problem(error@),
                false,
            ),
            (Stage::Preparing, OwnerEvent::Prepared(Ok(status))) => if status == 0 {
                (self.at(Stage::Starting), OwnerAct::Start)
            } else {
                self.failed(api::prepare_failed_problem(status), true)
            },
            (Stage::Preparing, OwnerEvent::Prepared(Err(error))) => self.failed(
                api::bring_up_failed_problem(error@),
                true,
            ),
            (Stage::Starting, OwnerEvent::Started(Ok(_))) => (
                self.at(Stage::Freezing),
                OwnerAct::Freeze,
            ),
            (Stage::Starting, OwnerEvent::Started(Err(error))) => self.failed(
                api::bring_up_failed_problem(error@),
                true,
            ),
            (Stage::Initializing, OwnerEvent::Initialized(Ok(status))) => if status == 0 {
                (self.at(Stage::Freezing), OwnerAct::Freeze)
            } else {
                self.failed(api::initializer_failed_problem(status), true)
            },
            (Stage::Initializing, OwnerEvent::Initialized(Err(error))) => self.failed(
                api::bring_up_failed_problem(error@),
                true,
            ),
            (Stage::Freezing, OwnerEvent::Froze(Ok(_))) => (
                self.at(Stage::Offering),
                OwnerAct::Offer,
            ),
            // A failed freeze takes the host with it.
            (Stage::Freezing, OwnerEvent::Froze(Err(error))) => self.failed(
                api::bring_up_failed_problem(error@),
                false,
            ),
            (Stage::Offering, OwnerEvent::Offered(taken)) => if taken {
                (
                    Owner { children: 0, idle_since: now, ..self.at(Stage::Serving) },
                    OwnerAct::Wait,
                )
            } else {
                (self.at(Stage::Gone), OwnerAct::Stop)
            },
            (Stage::Serving, OwnerEvent::Forked(Ok(exits))) => {
                let children = settled(self.children as int, 1, exits as int) as usize;
                (
                    Owner {
                        children,
                        idle_since: if children == 0 {
                            now
                        } else {
                            self.idle_since
                        },
                        ..self
                    },
                    OwnerAct::Wait,
                )
            },
            // A template is single-purpose: a failed fork means that the
            // frozen host is gone or wedged.
            (Stage::Serving, OwnerEvent::Forked(Err(_))) => (
                self.at(Stage::Gone),
                OwnerAct::Kill,
            ),
            (Stage::Serving, OwnerEvent::Idle(None)) => (self.at(Stage::Gone), OwnerAct::Kill),
            (Stage::Serving, OwnerEvent::Idle(Some(exits))) => {
                let children = settled(self.children as int, 0, exits as int) as usize;
                let idle_since = if exits > 0 && children == 0 {
                    now
                } else {
                    self.idle_since
                };
                let counted = Owner { children, idle_since, ..self };
                if children == 0 && has_passed(idle_since, now, self.ttl) {
                    (counted.at(Stage::Gone), OwnerAct::Stop)
                } else {
                    (counted, OwnerAct::Wait)
                }
            },
            (Stage::Serving, OwnerEvent::Dropped) => (self.at(Stage::Gone), OwnerAct::Stop),
            _ => (self, OwnerAct::Wait),
        }
    }

    /// The owner of a base template, about to spawn its host.
    pub fn base(has_prepare: bool, ttl: u128) -> (r: Self)
        ensures
            r.stage == Stage::Spawning,
            r.has_prepare == has_prepare,
            r.ttl == ttl,
            r.children == 0,
    {
        Owner { stage: Stage::Spawning, has_prepare, ttl, children: 0, idle_since: 0 }
    }

    /// The owner of a recipe's template, about to run the initializer in the
    /// clone it was handed.
    pub fn recipe(ttl: u128) -> (r: Self)
        ensures
            r.stage == Stage::Initializing,
            !r.has_prepare,
            r.ttl == ttl,
            r.children == 0,
    {
        Owner { stage: Stage::Initializing, has_prepare: false, ttl, children: 0, idle_since: 0 }
    }

    /// Whether the template can still fork.
    pub fn is_alive(&self) -> (r: bool)
        ensures
            r == (self.stage == Stage::Serving),
    {
        self.stage == Stage::Serving
    }

    /// Takes an event, and tells what to do about it.
    pub fn step(&mut self, event: &OwnerEvent, now: u128) -> (r: OwnerAction)
        requires
            old(self).children < usize::MAX,
        ensures
            *final(self) == old(self).stepped(*event, now).0,
            r@ == old(self).stepped(*event, now).1,
    {
        match (self.stage, event) {
            (Stage::Spawning, OwnerEvent::Spawned(Ok(_))) => {
                if self.has_prepare {
                    self.stage = Stage::Preparing;
                    OwnerAction::Prepare
                } else {
                    self.stage = Stage::Starting;
                    OwnerAction::Start
                }
            },
            (Stage::Spawning, OwnerEvent::Spawned(Err(error))) => self.fail(error, false),
            (Stage::Preparing, OwnerEvent::Prepared(Ok(status))) => {
                if *status == 0 {
                    self.stage = Stage::Starting;
                    OwnerAction::Start
                } else {
                    self.stage = Stage::Gone;
                    OwnerAction::Fail { problem: Problem::prepare_failed(*status), kill: true }
                }
            },
            (Stage::Preparing, OwnerEvent::Prepared(Err(error))) => self.fail(error, true),
            (Stage::Starting, OwnerEvent::Started(Ok(_))) => {
                self.stage = Stage::Freezing;
                OwnerAction::Freeze
            },
            (Stage::Starting, OwnerEvent::Started(Err(error))) => self.fail(error, true),
            (Stage::Initializing, OwnerEvent::Initialized(Ok(status))) => {
                if *status == 0 {
                    self.stage = Stage::Freezing;
                    OwnerAction::Freeze
                } else {
                    self.stage = Stage::Gone;
                    OwnerAction::Fail { problem: Problem::initializer_failed(*status), kill: true }
                }
            },
            (Stage::Initializing, OwnerEvent::Initialized(Err(error))) => self.fail(error, true),
            (Stage::Freezing, OwnerEvent::Froze(Ok(_))) => {
                self.stage = Stage::Offering;
                OwnerAction::Offer
            },
            (Stage::Freezing, OwnerEvent::Froze(Err(error))) => self.fail(error, false),
            (Stage::Offering, OwnerEvent::Offered(taken)) => {
                if *taken {
                    self.stage = Stage::Serving;
                    self.children = 0;
                    self.idle_since = now;
                    OwnerAction::Wait
                } else {
                    self.stage = Stage::Gone;
                    OwnerAction::Stop
                }
            },
            (Stage::Serving, OwnerEvent::Forked(Ok(exits))) => {
                self.children = (self.children + 1).saturating_sub(*exits);
                if self.children == 0 {
                    self.idle_since = now;
                }
                OwnerAction::Wait
            },
            (Stage::Serving, OwnerEvent::Forked(Err(_))) => {
                self.stage = Stage::Gone;
                OwnerAction::Kill
            },
            (Stage::Serving, OwnerEvent::Idle(None)) => {
                self.stage = Stage::Gone;
                OwnerAction::Kill
            },
            (Stage::Serving, OwnerEvent::Idle(Some(exits))) => {
                if *exits > 0 {
                    self.children = self.children.saturating_sub(*exits);
                    if self.children == 0 {
                        self.idle_since = now;
                    }
                }
                if self.children == 0 && now.saturating_sub(self.idle_since) >= self.ttl {
                    self.stage = Stage::Gone;
                    OwnerAction::Stop
                } else {
                    OwnerAction::Wait
                }
            },
            (Stage::Serving, OwnerEvent::Dropped) => {
                self.stage = Stage::Gone;
                OwnerAction::Stop
            },
            _ => OwnerAction::Wait,
        }
    }

    /// The template gone, because it did not come up.
    fn fail(&mut self, error: &String, kill: bool) -> (r: OwnerAction)
        ensures
            (*final(self), r@) == old(self).failed(api::bring_up_failed_problem(error@), kill),
    {
        self.stage = Stage::Gone;
        OwnerAction::Fail { problem: Problem::bring_up_failed(error.as_str()), kill }
    }
}

/// The owner after a run of events.
pub open spec fn after(owner: Owner, events: Seq<(OwnerEvent, u128)>) -> Owner
    decreases events.len(),
{
    if events.len() == 0 {
        owner
    } else {
        let last = events.last();
        after(owner, events.drop_last()).stepped(last.0, last.1).0
    }
}

/// The forks served in a run of events.
pub open spec fn forks(events: Seq<(OwnerEvent, u128)>) -> int
    decreases events.len(),
{
    if events.len() == 0 {
        0
    } else {
        forks(events.drop_last()) + match events.last().0 {
            OwnerEvent::Forked(Ok(_)) => 1int,
            _ => 0,
        }
    }
}

/// The exits of descendants reported in a run of events.
pub open spec fn exits(events: Seq<(OwnerEvent, u128)>) -> int
    decreases events.len(),
{
    if events.len() == 0 {
        0
    } else {
        exits(events.drop_last()) + match events.last().0 {
            OwnerEvent::Forked(Ok(n)) => n as int,
            OwnerEvent::Idle(Some(n)) => n as int,
            _ => 0,
        }
    }
}

/// Whether no exit is reported before the fork it belongs to.
pub open spec fn exits_follow_forks(events: Seq<(OwnerEvent, u128)>) -> bool {
    forall|k: int|
        0 <= k <= events.len() ==> #[trigger] exits(events.take(k)) <= forks(events.take(k))
}

/// A serving template's live descendants are the forks served less the exits
/// reported, for as long as it serves.
pub proof fn law_descendants_are_forks_less_exits(owner: Owner, events: Seq<(OwnerEvent, u128)>)
    requires
        owner.stage == Stage::Serving,
        owner.children == 0,
        exits_follow_forks(events),
        events.len() <= usize::MAX,
        after(owner, events).stage == Stage::Serving,
    ensures
        after(owner, events).children == forks(events) - exits(events),
        0 <= exits(events),
        forks(events) <= events.len(),
    decreases events.len(),
{
    if events.len() > 0 {
        let before = events.drop_last();
        assert(events.take(events.len() as int) =~= events);
        assert(exits(events) <= forks(events));
        lemma_follow(events);
        law_only_what_is_frozen_serves(after(owner, before), events.last().0, events.last().1);
        lemma_serving(owner, before);
        law_descendants_are_forks_less_exits(owner, before);
    }
}

/// A template that serves does so until it is gone, and keeps its TTL.
proof fn lemma_serving(owner: Owner, events: Seq<(OwnerEvent, u128)>)
    requires
        owner.stage == Stage::Serving,
    ensures
        after(owner, events).stage == Stage::Serving || after(owner, events).stage == Stage::Gone,
        after(owner, events).ttl == owner.ttl,
    decreases events.len(),
{
    if events.len() > 0 {
        lemma_serving(owner, events.drop_last());
    }
}

/// A template with a live descendant does not expire, however long it waits.
pub proof fn law_a_template_outlives_its_descendants(
    owner: Owner,
    events: Seq<(OwnerEvent, u128)>,
    reported: usize,
    now: u128,
)
    requires
        owner.stage == Stage::Serving,
        owner.children == 0,
        exits_follow_forks(events),
        events.len() <= usize::MAX,
        after(owner, events).stage == Stage::Serving,
        exits(events) + reported < forks(events),
    ensures
        after(owner, events).stepped(OwnerEvent::Idle(Some(reported)), now).0.stage
            == Stage::Serving,
        after(owner, events).stepped(OwnerEvent::Idle(Some(reported)), now).1 == OwnerAct::Wait,
{
    law_descendants_are_forks_less_exits(owner, events);
}

/// A template without a descendant, and without one for its TTL, is stopped.
pub proof fn law_an_idle_template_expires(owner: Owner, now: u128)
    requires
        owner.stage == Stage::Serving,
        owner.children == 0,
        owner.idle_since + owner.ttl <= now,
    ensures
        owner.stepped(OwnerEvent::Idle(Some(0)), now) == (owner.at(Stage::Gone), OwnerAct::Stop),
{
}

/// How many exits of descendants an event reports.
pub open spec fn exits_in(event: OwnerEvent) -> int {
    match event {
        OwnerEvent::Forked(Ok(n)) => n as int,
        OwnerEvent::Idle(Some(n)) => n as int,
        _ => 0,
    }
}

/// Whether an event is a fork served.
pub open spec fn is_fork(event: OwnerEvent) -> bool {
    event matches OwnerEvent::Forked(Ok(_))
}

/// The descendants alive after a run of events: forks served less exits
/// reported, where an exit too many counts for nothing.
pub open spec fn descendants(events: Seq<(OwnerEvent, u128)>) -> int
    decreases events.len(),
{
    if events.len() == 0 {
        0
    } else {
        settled(
            descendants(events.drop_last()),
            if is_fork(events.last().0) {
                1
            } else {
                0
            },
            exits_in(events.last().0),
        )
    }
}

/// Whether a template has been idle since the first `from` of a run of events:
/// in the rest of it no fork was served, no descendant was alive and none was
/// reported to have exited.
pub open spec fn is_idle(events: Seq<(OwnerEvent, u128)>, from: int) -> bool {
    &&& 0 <= from <= events.len()
    &&& forall|k: int| from <= k <= events.len() ==> descendants(#[trigger] events.take(k)) == 0
    &&& forall|k: int|
        from <= k < events.len() ==> !is_fork((#[trigger] events[k]).0) && exits_in(events[k].0)
            == 0
}

/// When the first `from` of a run of events had come in; `start` where there
/// are none.
pub open spec fn time_of(start: u128, events: Seq<(OwnerEvent, u128)>, from: int) -> u128 {
    if from <= 0 {
        start
    } else {
        events[from - 1].1
    }
}

/// Whether the times of a run of events never go back, from `start` on.
pub open spec fn in_time_order(start: u128, events: Seq<(OwnerEvent, u128)>) -> bool {
    forall|i: int, j: int|
        0 <= i <= j <= events.len() ==> #[trigger] time_of(start, events, i) <= #[trigger] time_of(
            start,
            events,
            j,
        )
}

/// Whether a template has been idle since the first `from` of a run of events,
/// and was not before.
spec fn falls_idle(events: Seq<(OwnerEvent, u128)>, from: int) -> bool {
    &&& is_idle(events, from)
    &&& forall|earlier: int| #[trigger] is_idle(events, earlier) ==> from <= earlier
}

/// An event that serves a fork, or reports an exit, begins an idle time;
/// another goes on with the one before it.
proof fn lemma_falls_idle(events: Seq<(OwnerEvent, u128)>, from: int) -> (r: int)
    requires
        events.len() > 0,
        descendants(events) == 0,
        descendants(events.drop_last()) == 0 ==> falls_idle(events.drop_last(), from),
    ensures
        falls_idle(events, r),
        r == if is_fork(events.last().0) || exits_in(events.last().0) > 0 {
            events.len() as int
        } else {
            from
        },
{
    let n = events.len() as int;
    let before = events.drop_last();
    assert(events.take(n) =~= events);
    assert(events.take(n - 1) =~= before);
    assert(before.take(n - 1) =~= before);
    if is_fork(events.last().0) || exits_in(events.last().0) > 0 {
        assert forall|earlier: int| #[trigger] is_idle(events, earlier) implies n <= earlier by {
            if earlier < n {
                assert(!is_fork(events[n - 1].0));
            }
        }
        n
    } else {
        assert(descendants(before) == 0);
        assert(is_idle(events, from)) by {
            assert forall|k: int| from <= k <= n implies descendants(#[trigger] events.take(k))
                == 0 by {
                if k < n {
                    assert(events.take(k) =~= before.take(k));
                    assert(descendants(before.take(k)) == 0);
                }
            }
            assert forall|k: int| from <= k < n implies !is_fork((#[trigger] events[k]).0)
                && exits_in(events[k].0) == 0 by {
                if k < n - 1 {
                    assert(before[k] == events[k]);
                }
            }
        }
        assert forall|earlier: int| #[trigger] is_idle(events, earlier) implies from <= earlier by {
            if earlier < n {
                assert(is_idle(before, earlier)) by {
                    assert forall|k: int| earlier <= k <= n - 1 implies descendants(
                        #[trigger] before.take(k),
                    ) == 0 by {
                        assert(events.take(k) =~= before.take(k));
                        assert(descendants(events.take(k)) == 0);
                    }
                    assert forall|k: int| earlier <= k < n - 1 implies !is_fork(
                        (#[trigger] before[k]).0,
                    ) && exits_in(before[k].0) == 0 by {
                        assert(before[k] == events[k]);
                    }
                }
            }
        }
        from
    }
}

/// A serving template counts its descendants, and where it has none holds the
/// time at which it fell idle.
proof fn lemma_idle_since(owner: Owner, events: Seq<(OwnerEvent, u128)>) -> (from: int)
    requires
        owner.stage == Stage::Serving,
        owner.children == 0,
        events.len() <= usize::MAX,
        after(owner, events).stage == Stage::Serving,
    ensures
        after(owner, events).children == descendants(events),
        0 <= descendants(events) <= events.len(),
        after(owner, events).children == 0 ==> falls_idle(events, from) && after(
            owner,
            events,
        ).idle_since == time_of(owner.idle_since, events, from),
    decreases events.len(),
{
    let n = events.len() as int;
    assert(events.take(n) =~= events);
    if n == 0 {
        assert(is_idle(events, 0));
        0
    } else {
        let before = events.drop_last();
        law_only_what_is_frozen_serves(after(owner, before), events.last().0, events.last().1);
        lemma_serving(owner, before);
        let from = lemma_idle_since(owner, before);
        if after(owner, events).children == 0 {
            if after(owner, before).children == 0 && from > 0 {
                assert(before[from - 1] == events[from - 1]);
            }
            lemma_falls_idle(events, from)
        } else {
            from
        }
    }
}

/// What holds of a run of events holds of it without the last one.
proof fn lemma_follow(events: Seq<(OwnerEvent, u128)>)
    requires
        events.len() > 0,
        exits_follow_forks(events),
    ensures
        exits_follow_forks(events.drop_last()),
{
    let before = events.drop_last();
    assert forall|k: int| 0 <= k <= before.len() implies #[trigger] exits(before.take(k)) <= forks(
        before.take(k),
    ) by {
        assert(before.take(k) =~= events.take(k));
        assert(exits(events.take(k)) <= forks(events.take(k)));
    }
}

/// Over the whole time that a template serves, it expires when nothing is
/// asked for only where it has been idle for its TTL: for that long it has
/// served no fork and has had no live descendant. Where time does not go back,
/// it always does so then.
pub proof fn law_a_template_expires_after_its_ttl_idle(
    owner: Owner,
    events: Seq<(OwnerEvent, u128)>,
    reported: usize,
    now: u128,
)
    requires
        owner.stage == Stage::Serving,
        owner.children == 0,
        events.len() < usize::MAX,
        after(owner, events).stage == Stage::Serving,
    ensures
        ({
            let whole = events.push((OwnerEvent::Idle(Some(reported)), now));
            let (then, act) = after(owner, events).stepped(
                OwnerEvent::Idle(Some(reported)),
                now,
            );
            let expired = exists|from: int| #[trigger]
                is_idle(whole, from) && has_passed(
                    time_of(owner.idle_since, whole, from),
                    now,
                    owner.ttl,
                );
            &&& then.stage == Stage::Gone && act == OwnerAct::Stop || then.stage == Stage::Serving
                && act == OwnerAct::Wait
            &&& then.stage == Stage::Gone ==> expired
            &&& expired && in_time_order(owner.idle_since, whole) ==> then.stage == Stage::Gone
            &&& then.children == descendants(whole)
        }),
{
    let whole = events.push((OwnerEvent::Idle(Some(reported)), now));
    let n = whole.len() as int;
    assert(whole.drop_last() =~= events);
    assert(whole.take(n) =~= whole);
    lemma_serving(owner, events);
    let from = lemma_idle_since(owner, events);
    let then = after(owner, events).stepped(OwnerEvent::Idle(Some(reported)), now).0;
    assert(then.children == descendants(whole));
    if then.children == 0 {
        let from = lemma_falls_idle(whole, from);
        assert(time_of(owner.idle_since, whole, n) == now);
        assert(then.idle_since == time_of(owner.idle_since, whole, from));
        if in_time_order(owner.idle_since, whole) {
            assert forall|later: int| #[trigger] is_idle(whole, later) implies time_of(
                owner.idle_since,
                whole,
                from,
            ) <= time_of(owner.idle_since, whole, later) <= now by {}
        }
    } else {
        assert forall|later: int| !#[trigger] is_idle(whole, later) by {
            if is_idle(whole, later) {
                assert(descendants(whole.take(n)) == 0);
            }
        }
    }
}

/// A serving template is alive exactly until its owner ends its host: a failed
/// fork and a lost host kill it, and where every handle is dropped it is
/// stopped.
pub proof fn law_a_template_that_ends_is_not_alive(owner: Owner, event: OwnerEvent, now: u128)
    requires
        owner.stage == Stage::Serving,
    ensures
        owner.stepped(event, now).0.stage == Stage::Serving <==> owner.stepped(event, now).1
            == OwnerAct::Wait,
        owner.stepped(event, now).1 == OwnerAct::Kill <==> (event matches OwnerEvent::Forked(
            Err(_),
        )) || event == OwnerEvent::Idle(None),
        event == OwnerEvent::Dropped ==> owner.stepped(event, now) == (
            owner.at(Stage::Gone),
            OwnerAct::Stop,
        ),
{
}

/// Only a template that has been frozen and taken serves forks.
pub proof fn law_only_what_is_frozen_serves(owner: Owner, event: OwnerEvent, now: u128)
    ensures
        owner.stepped(event, now).0.stage == Stage::Serving ==> owner.stage == Stage::Serving || (
        owner.stage == Stage::Offering && event == OwnerEvent::Offered(true)),
        owner.stepped(event, now).0.stage == Stage::Offering ==> owner.stage == Stage::Offering || (
        owner.stage == Stage::Freezing && event matches OwnerEvent::Froze(Ok(_))),
{
}

/// A template that is gone does not come back.
pub proof fn law_the_gone_stay_gone(owner: Owner, event: OwnerEvent, now: u128)
    requires
        owner.stage == Stage::Gone,
    ensures
        owner.stepped(event, now) == (owner, OwnerAct::Wait),
{
}

/// Why a fork came to nothing.
#[derive(Debug)]
pub enum ForkFailure {
    /// The template was gone already.
    Gone,
    /// The template went away while forking.
    Died,
    /// The fork failed.
    Failed(String),
}

/// The problem a failed fork is answered with.
pub fn fork_problem(failure: &ForkFailure) -> (r: Problem)
    ensures
        r@ == api::template_failed_problem(
            match failure {
                ForkFailure::Gone => "the template is gone"@,
                ForkFailure::Died => "the template died forking"@,
                ForkFailure::Failed(error) => error@,
            },
        ),
{
    match failure {
        ForkFailure::Gone => Problem::template_failed("the template is gone"),
        ForkFailure::Died => Problem::template_failed("the template died forking"),
        ForkFailure::Failed(error) => Problem::template_failed(error.as_str()),
    }
}

/// What came of bringing a template up, as its creator hears it: nothing where
/// the owner went away without a word.
pub fn filling(heard: Option<Result<(), Problem>>) -> (r: Result<(), Problem>)
    ensures
        match heard {
            Some(heard) => r == heard,
            None => r is Err && (r->Err_0)@ == api::internal_problem(
                "the template's owner thread died"@,
            ),
        },
{
    match heard {
        Some(heard) => heard,
        None => Err(Problem::internal("the template's owner thread died")),
    }
}

/// What a request that gets a template does with it.
pub open spec fn got(recipe: Option<Seq<u8>>, request: Request, id: u64) -> Obtain {
    if request.base is None && recipe is Some {
        Obtain::Base(id)
    } else {
        Obtain::Use(id)
    }
}

/// What a request that brings up a template does.
pub open spec fn brings_up(request: Request) -> Obtain {
    match request.base {
        None => Obtain::FillBase,
        Some(base) => Obtain::FillRecipe(base),
    }
}

/// One template is brought up for a slot at a time: a request that comes to it
/// meanwhile waits, and leaves it as it is.
pub proof fn law_fills_run_once(
    before: Templates,
    manifest: Manifest,
    recipe: Option<Seq<u8>>,
    request: Request,
    after: Templates,
    then: Request,
    does: Obtain,
)
    requires
        obtains(before, manifest, recipe, request, after, then, does),
        recipe is Some || request.base is None,
        before.reached(manifest, recipe, request).1.filling,
    ensures
        does == Obtain::Wait,
        after.held(before.reached(manifest, recipe, request).0) == Some(
            before.reached(manifest, recipe, request).1,
        ),
        then.slot == Some(before.reached(manifest, recipe, request).0),
{
}

/// The first request for a service, version and recipe pays the bring-up: once
/// it has brought the template up, later requests for the same fork that
/// template.
pub proof fn law_later_requests_fork_the_template(
    before: Templates,
    filler: Request,
    id: u64,
    filled: Templates,
    done: Request,
    manifest: Manifest,
    recipe: Option<Seq<u8>>,
    request: Request,
    after: Templates,
    then: Request,
    does: Obtain,
)
    requires
        before.fills(filler),
        before.finds(key_wanted(manifest, recipe, request), filler.slot->0),
        fills(before, filler, Some(id), filled, done),
        filled.valid(),
        !filled.waits(request),
        recipe is Some || request.base is None,
        obtains(filled, manifest, recipe, request, after, then, does),
    ensures
        does == got(recipe, request, id),
{
    let key = key_wanted(manifest, recipe, request);
    assert(filled.held(filler.slot->0) == slot_filled(before.held(filler.slot->0)->0, Some(id)));
    filled.lemma_found(key, filler.slot->0);
}

/// A template that could not be brought up is brought up by the next request
/// that comes to its slot.
pub proof fn law_a_failed_fill_is_retried(
    before: Templates,
    filler: Request,
    left: Templates,
    done: Request,
    manifest: Manifest,
    recipe: Option<Seq<u8>>,
    request: Request,
    after: Templates,
    then: Request,
    does: Obtain,
)
    requires
        before.valid(),
        before.fills(filler),
        fills(before, filler, None, left, done),
        recipe is Some || request.base is None,
        left.reached(manifest, recipe, request).0 == filler.slot->0,
        left.held(filler.slot->0) is Some,
        left.valid(),
        obtains(left, manifest, recipe, request, after, then, does),
    ensures
        does == brings_up(request),
        then.filling,
{
    let at = choose|i: int| stands_at(before.slots@, filler.slot->0, i);
    let id = filler.slot->0;
    assert(before.slots@[at].filling);
    assert(left.held(id) == slot_filled(before.held(id)->0, None));
    if !left.waits(request) && left.found(key_wanted(manifest, recipe, request)) is None {
        let i = choose|i: int| stands_at(left.slots@, id, i);
        assert(left.slots@[i].id < left.next);
    }
}

/// Nothing is found for a key that is forgotten.
proof fn lemma_nothing_found(before: Templates, change: ChangeView, after: Templates, key: KeyView)
    requires
        changes(before, change, after),
        change == ChangeView::Forget(key) || change == ChangeView::Clear,
    ensures
        forall|id: u64| !#[trigger] after.finds(key, id),
{
    assert forall|id: u64| !#[trigger] after.finds(key, id) by {
        assert(after.held(id) == match before.held(id) {
            Some(slot) => changed(slot, change),
            None => None,
        });
    }
}

/// A template that was forgotten, after a failed fork or with all the others,
/// is brought up by the next request.
pub proof fn law_a_lost_template_is_rebuilt(
    before: Templates,
    change: ChangeView,
    left: Templates,
    manifest: Manifest,
    recipe: Option<Seq<u8>>,
    request: Request,
    after: Templates,
    then: Request,
    does: Obtain,
)
    requires
        change == ChangeView::Forget(key_wanted(manifest, recipe, request)) || change
            == ChangeView::Clear,
        changes(before, change, left),
        !left.waits(request),
        recipe is Some || request.base is None,
        obtains(left, manifest, recipe, request, after, then, does),
    ensures
        does == brings_up(request),
        then.filling,
{
    lemma_nothing_found(before, change, left, key_wanted(manifest, recipe, request));
}

/// A template that comes up after its slot was forgotten is not found by later
/// requests, which bring up another. The requests that waited for it get it,
/// and so does the one that brought it up.
pub proof fn law_a_forgotten_fill_is_not_found(
    before: Templates,
    filler: Request,
    change: ChangeView,
    forgotten: Templates,
    id: u64,
    filled: Templates,
    done: Request,
    manifest: Manifest,
    recipe: Option<Seq<u8>>,
    request: Request,
    after: Templates,
    then: Request,
    does: Obtain,
)
    requires
        before.valid(),
        before.fills(filler),
        change == ChangeView::Forget(key_wanted(manifest, recipe, request)) || change
            == ChangeView::Clear,
        before.finds(key_wanted(manifest, recipe, request), filler.slot->0),
        changes(before, change, forgotten),
        fills(forgotten, filler, Some(id), filled, done),
        recipe is Some || request.base is None,
        obtains(filled, manifest, recipe, request, after, then, does),
    ensures
        !filled.waits(request) ==> does == brings_up(request),
        filled.waits(request) && request.slot == filler.slot ==> does == got(recipe, request, id),
        filler.base is None ==> done.base == Some(id),
{
    let key = key_wanted(manifest, recipe, request);
    let slot = filler.slot->0;
    lemma_nothing_found(before, change, forgotten, key);
    assert(forgotten.held(slot) == changed(before.held(slot)->0, change));
    assert(forgotten.fills(filler));
    assert(filled.held(slot) == slot_filled(forgotten.held(slot)->0, Some(id)));
    assert forall|other: u64| !#[trigger] filled.finds(key, other) by {
        assert(!forgotten.finds(key, other));
        assert(other != slot ==> filled.held(other) == forgotten.held(other));
    }
}

/// A template is used only while it can fork, unless it is the base that the
/// request itself has got.
pub proof fn law_only_live_templates_are_used(
    before: Templates,
    manifest: Manifest,
    recipe: Option<Seq<u8>>,
    request: Request,
    after: Templates,
    then: Request,
    does: Obtain,
    id: u64,
)
    requires
        obtains(before, manifest, recipe, request, after, then, does),
        does == Obtain::Use(id) || does == Obtain::Base(id),
    ensures
        live(before.reached(manifest, recipe, request).1.template) == Some(id) || (recipe is None
            && request.base == Some(id)),
{
}

/// A template is kept for one service, one version and one recipe: requests
/// share a key only where all three are the same, as far as a digest tells
/// recipes apart, and a base has the key of no recipe.
pub proof fn law_keys_tell_services_versions_and_recipes_apart(
    a: Manifest,
    b: Manifest,
    r: Option<Seq<u8>>,
    s: Option<Seq<u8>>,
)
    ensures
        key_of(a, r) == key_of(b, s) ==> {
            &&& a.service.name@ == b.service.name@
            &&& a.service.version@ == b.service.version@
            &&& r is None <==> s is None
            &&& r is Some ==> digest::sha256(r->0) == digest::sha256(s->0)
        },
        a.service.name@ == b.service.name@ && a.service.version@ == b.service.version@ && r == s
            ==> key_of(a, r) == key_of(b, s),
{
}

/// What a key is holds everything that it is made of.
pub proof fn law_a_key_is_what_it_holds(a: Key, b: Key)
    ensures
        a@ == b@ ==> a.name@ == b.name@ && a.version@ == b.version@ && (a.recipe is None
            <==> b.recipe is None),
        a@ == b@ && a.recipe is Some ==> (a.recipe->0)@ == (b.recipe->0)@,
{
}

/// A request that holds no slot comes to the slot of its own service and
/// version: that of the base, or, once it has the base, that of its recipe.
pub proof fn law_a_request_comes_to_its_own_slot(
    templates: Templates,
    manifest: Manifest,
    recipe: Option<Seq<u8>>,
    request: Request,
)
    requires
        !templates.waits(request),
    ensures
        ({
            let slot = templates.reached(manifest, recipe, request).1;
            &&& slot.key.name == manifest.service.name@
            &&& slot.key.version == manifest.service.version@
            &&& request.base is None || recipe is None ==> slot.key.recipe is None
            &&& request.base is Some && recipe is Some ==> slot.key.recipe == Some(
                digest::sha256(recipe->0),
            )
        }),
{
}

/// A slot is for the key it was made for, whatever happens to it, and holds
/// what was brought up for it.
pub proof fn law_a_slot_keeps_its_key(
    slot: SlotView,
    template: Option<u64>,
    change: ChangeView,
)
    ensures
        slot_entered(slot) matches Some(after) ==> after.key == slot.key && after.template
            == slot.template,
        slot_filled(slot, template) matches Some(after) ==> after.key == slot.key && !after.filling,
        template is Some ==> (slot_filled(slot, template) matches Some(after) ==> after.template
            == Some(Template { id: template->0, alive: true })),
        slot_filled(slot, None) matches Some(after) ==> after.template == slot.template,
        changed(slot, change) matches Some(after) ==> after.key == slot.key && after.holders
            == slot.holders && after.filling == slot.filling && (after.mapped ==> slot.mapped),
        changed(slot, change) matches Some(after) ==> (after.template is Some
            <==> slot.template is Some),
        changed(slot, change) matches Some(after) ==> (after.template matches Some(template)
            ==> template.id == (slot.template->0).id && (template.alive ==> (
        slot.template->0).alive)),
{
}

/// A slot is gone only where nobody holds it; a template that can fork stays
/// where it is unless it is forgotten or is gone itself.
pub proof fn law_what_is_held_or_alive_is_not_pruned(slot: SlotView, id: u64, key: KeyView)
    ensures
        slot.holders > 0 || live(slot.template) is Some ==> changed(slot, ChangeView::Prune)
            == Some(slot),
        slot.mapped && slot.holders == 0 && live(slot.template) is None ==> changed(
            slot,
            ChangeView::Prune,
        ) is None,
        slot.key != key ==> changed(slot, ChangeView::Forget(key)) == Some(slot),
        changed(slot, ChangeView::Forget(slot.key)) matches Some(after) ==> !after.mapped,
        changed(slot, ChangeView::Clear) matches Some(after) ==> !after.mapped,
        slot.holders > 0 ==> changed(slot, ChangeView::Forget(key)) is Some && changed(
            slot,
            ChangeView::Clear,
        ) is Some,
        live(slot.template) is Some && live(slot.template) != Some(id) ==> changed(
            slot,
            ChangeView::Died(id),
        ) == Some(slot),
        changed(slot, ChangeView::Died(id)) is Some,
        live((changed(slot, ChangeView::Died(id))->0).template) != Some(id),
{
}

/// What a request that comes to a slot does: it waits where another brings the
/// template up, forks the one there is where that can fork, and else brings
/// one up, on the base it has got.
pub proof fn law_a_request_forks_waits_or_fills(
    slot: SlotView,
    base: Option<u64>,
    recipe: bool,
    id: u64,
)
    ensures
        entered(slot, base, recipe) == Obtain::Wait <==> slot.filling,
        entered(slot, base, recipe) == Obtain::Use(id) || entered(slot, base, recipe)
            == Obtain::Base(id) <==> !slot.filling && slot.template == Some(
            Template { id, alive: true },
        ),
        entered(slot, base, recipe) == Obtain::FillBase ==> base is None,
        entered(slot, base, recipe) == Obtain::FillRecipe(id) ==> base == Some(id),
        entered(slot, base, recipe) is FillBase || entered(slot, base, recipe) is FillRecipe
            <==> !slot.filling && !(slot.template is Some && (slot.template->0).alive),
        entered(slot, base, recipe) is Base ==> base is None && recipe,
        entered(slot, base, recipe) is FillBase || entered(slot, base, recipe) is FillRecipe
            ==> slot_entered(slot) == Some(SlotView { filling: true, ..slot }),
{
}

/// A template is frozen only once its guest was started or its initializer
/// exited with 0, is started only once its host was spawned and its prepare
/// step, where it has one, exited with 0, and serves only once it is frozen
/// and taken.
pub proof fn law_a_template_comes_up_step_by_step(owner: Owner, event: OwnerEvent, now: u128)
    ensures
        ({
            let (after, act) = owner.stepped(event, now);
            let spawned = event matches OwnerEvent::Spawned(Ok(_));
            let started = event matches OwnerEvent::Started(Ok(_));
            let froze = event matches OwnerEvent::Froze(Ok(_));
            &&& act == OwnerAct::Freeze <==> (owner.stage == Stage::Starting && started) || (
            owner.stage == Stage::Initializing && event == OwnerEvent::Initialized(Ok(0)))
            &&& act == OwnerAct::Freeze ==> after.stage == Stage::Freezing
            &&& act == OwnerAct::Start <==> (owner.stage == Stage::Preparing && event
                == OwnerEvent::Prepared(Ok(0))) || (owner.stage == Stage::Spawning && spawned
                && !owner.has_prepare)
            &&& act == OwnerAct::Start ==> after.stage == Stage::Starting
            &&& act == OwnerAct::Prepare <==> owner.stage == Stage::Spawning && spawned
                && owner.has_prepare
            &&& act == OwnerAct::Prepare ==> after.stage == Stage::Preparing
            &&& act == OwnerAct::Offer <==> owner.stage == Stage::Freezing && froze
            &&& act == OwnerAct::Offer ==> after.stage == Stage::Offering
            &&& after.stage == Stage::Serving && owner.stage != Stage::Serving <==> owner.stage
                == Stage::Offering && event == OwnerEvent::Offered(true)
            &&& after.ttl == owner.ttl
            &&& after.has_prepare == owner.has_prepare
        }),
{
}

/// A bring-up that fails, in whatever step, is answered with a problem that
/// says how, and the template is gone; the host is killed unless it is gone
/// already.
pub proof fn law_a_failed_bring_up_is_answered(owner: Owner, event: OwnerEvent, now: u128)
    ensures
        ({
            let (after, act) = owner.stepped(event, now);
            let refused = match (owner.stage, event) {
                (Stage::Preparing, OwnerEvent::Prepared(Ok(status))) => status != 0,
                (Stage::Initializing, OwnerEvent::Initialized(Ok(status))) => status != 0,
                (Stage::Spawning, OwnerEvent::Spawned(Err(_))) => true,
                (Stage::Preparing, OwnerEvent::Prepared(Err(_))) => true,
                (Stage::Starting, OwnerEvent::Started(Err(_))) => true,
                (Stage::Initializing, OwnerEvent::Initialized(Err(_))) => true,
                (Stage::Freezing, OwnerEvent::Froze(Err(_))) => true,
                _ => false,
            };
            &&& act is Fail <==> refused
            &&& act is Fail ==> after.stage == Stage::Gone
            &&& act matches OwnerAct::Fail { problem, kill } ==> problem.status == 500 && (kill
                <==> owner.stage != Stage::Spawning && owner.stage != Stage::Freezing)
            &&& event matches OwnerEvent::Prepared(Ok(status)) ==> (act matches OwnerAct::Fail {
                problem,
                ..
            } ==> problem == api::prepare_failed_problem(status))
            &&& event matches OwnerEvent::Initialized(Ok(status)) ==> (act matches OwnerAct::Fail {
                problem,
                ..
            } ==> problem == api::initializer_failed_problem(status))
        }),
{
}

/// A serving template counts each fork as one descendant more and each exit as
/// one less, and takes no heed of what is not its own.
pub proof fn law_forks_and_exits_are_counted(owner: Owner, exits: usize, now: u128)
    requires
        owner.stage == Stage::Serving,
        exits <= owner.children,
        owner.children < usize::MAX,
    ensures
        owner.stepped(OwnerEvent::Forked(Ok(exits)), now).0.children == owner.children + 1 - exits,
        owner.stepped(OwnerEvent::Idle(Some(exits)), now).0.children == owner.children - exits,
        owner.stepped(OwnerEvent::Forked(Ok(exits)), now).1 == OwnerAct::Wait,
        owner.children > exits ==> owner.stepped(OwnerEvent::Idle(Some(exits)), now).1
            == OwnerAct::Wait,
        owner.stepped(OwnerEvent::Offered(true), now) == (owner, OwnerAct::Wait),
{
}

/// A template that is taken begins to serve without a descendant, and its idle
/// time counts from then.
pub proof fn law_serving_begins_idle(owner: Owner, now: u128)
    requires
        owner.stage == Stage::Offering,
    ensures
        owner.stepped(OwnerEvent::Offered(true), now).0.children == 0,
        owner.stepped(OwnerEvent::Offered(true), now).0.idle_since == now,
        owner.stepped(OwnerEvent::Offered(false), now).0.stage == Stage::Gone,
        owner.stepped(OwnerEvent::Offered(false), now).1 == OwnerAct::Stop,
{
}

/// The exits among events are those of reaped clones, each counted once: more
/// events never count less, and an event counts as one exactly where it is
/// the exit of a clone.
pub proof fn law_only_the_exits_of_clones_count(events: Seq<Reply>, event: Reply)
    ensures
        child_exits(events.push(event)) == child_exits(events) + if event matches Reply::Exited {
            run: Run::Child,
            ..
        } {
            1int
        } else {
            0
        },
        child_exits(Seq::empty()) == 0,
{
    assert(events.push(event).drop_last() =~= events);
}

/// A request that obtains a template changes its own slot alone, and says what
/// it holds afterwards: a slot that it waits for or fills, or the template that
/// it got.
pub proof fn law_a_request_changes_only_its_slot(
    before: Templates,
    manifest: Manifest,
    recipe: Option<Seq<u8>>,
    request: Request,
    after: Templates,
    then: Request,
    does: Obtain,
    other: u64,
)
    requires
        obtains(before, manifest, recipe, request, after, then, does),
    ensures
        recipe is None && request.base is Some ==> does == Obtain::Use(request.base->0) && after
            == before && then == request,
        !(recipe is None && request.base is Some) ==> {
            let (id, slot) = before.reached(manifest, recipe, request);
            &&& does == entered(slot, request.base, recipe is Some)
            &&& other != id ==> after.held(other) == before.held(other)
            &&& does is Wait || does is FillBase || does is FillRecipe <==> then.slot is Some
            &&& then.slot is Some ==> then.slot == Some(id) && then.base == request.base
            &&& does is FillBase || does is FillRecipe <==> then.filling
            &&& does is Use ==> then.base == request.base
            &&& does matches Obtain::Base(base) ==> then.base == Some(base)
            &&& does is FillBase || does is FillRecipe ==> (after.held(id) matches Some(now)
                && now.filling && now.key == slot.key && now.holders == slot.holders)
            &&& does is Wait ==> after.held(id) == Some(slot)
            &&& before.next <= after.next <= before.next + 1
        },
{
}

/// A fill that ends gives its slot the template that was brought up and wakes
/// whoever waits for it: the request holds no slot any more, and the base is
/// the template where it was one that was filled.
pub proof fn law_a_fill_ends_for_its_slot(
    before: Templates,
    request: Request,
    template: Option<u64>,
    after: Templates,
    then: Request,
    other: u64,
)
    requires
        fills(before, request, template, after, then),
    ensures
        !before.fills(request) ==> after == before && then == request,
        before.fills(request) ==> {
            let id = request.slot->0;
            &&& then.slot is None && !then.filling
            &&& request.base is Some ==> then.base == request.base
            &&& request.base is None ==> then.base == template
            &&& other != id ==> after.held(other) == before.held(other)
            &&& after.held(id) matches Some(now) ==> !now.filling && now.key == (
            before.held(id)->0).key && (template is Some ==> live(now.template) == template)
            &&& after.held(id) matches Some(now) ==> now.holders == (before.held(id)->0).holders - 1
            &&& (before.held(id)->0).mapped ==> after.held(id) is Some
        },
{
}

/// Who lets go of a slot is one holder less, and the slot stays as long as it
/// can be found or somebody holds it. Who takes one is one holder more, and a
/// new slot is empty and held once.
pub proof fn law_holders_are_counted(slot: SlotView, key: KeyView)
    requires
        slot.holders > 0,
    ensures
        released(slot) is None <==> !slot.mapped && slot.holders == 1,
        released(slot) matches Some(now) ==> now.holders == slot.holders - 1 && now.key == slot.key
            && now.mapped == slot.mapped && now.template == slot.template && (now.filling
            <==> slot.filling && slot.holders > 1),
        taken(slot).holders == slot.holders + 1,
        taken(slot).key == slot.key && taken(slot).template == slot.template && taken(slot).filling
            == slot.filling && taken(slot).mapped == slot.mapped,
        fresh(key).holders == 1 && fresh(key).key == key && fresh(key).mapped && !fresh(key).filling
            && fresh(key).template is None,
        unmapped(slot) matches Some(now) && !now.mapped && now.holders == slot.holders && now.key
            == slot.key && now.template == slot.template && now.filling == slot.filling,
        live(None) is None,
        forall|id: u64, alive: bool|
            #[trigger] live(Some(Template { id, alive })) == if alive {
                Some(id)
            } else {
                None
            },
{
}

/// A change is made to every slot and to nothing else: none appears by it, each
/// keeps its key, and a template that died is live in none.
pub proof fn law_a_change_is_made_to_every_slot(
    before: Templates,
    change: ChangeView,
    after: Templates,
    id: u64,
)
    requires
        changes(before, change, after),
    ensures
        after.next == before.next,
        before.held(id) is None ==> after.held(id) is None,
        after.held(id) matches Some(now) ==> before.held(id) is Some && now.key == (
        before.held(id)->0).key && now.holders == (before.held(id)->0).holders,
        change matches ChangeView::Died(dead) ==> (after.held(id) matches Some(now) ==> live(
            now.template,
        ) != Some(dead)),
        change matches ChangeView::Forget(key) ==> (after.held(id) matches Some(now) ==> !(
        now.mapped && now.key == key)),
        change is Clear ==> (after.held(id) matches Some(now) ==> !now.mapped),
        before.held(id) matches Some(slot) ==> (slot.holders > 0 ==> after.held(id) is Some),
{
    if before.held(id) is Some {
        law_a_slot_keeps_its_key(before.held(id)->0, None, change);
        if let ChangeView::Died(dead) = change {
            law_what_is_held_or_alive_is_not_pruned(
                before.held(id)->0,
                dead,
                (before.held(id)->0).key,
            );
        }
    }
}

/// A request waits for a slot exactly where it has one that is held, and fills
/// it where it was the one to do so and the fill goes on.
pub proof fn law_who_waits_and_who_fills(templates: Templates, request: Request)
    ensures
        templates.waits(request) <==> request.slot is Some && templates.held(
            request.slot->0,
        ) is Some && (templates.held(request.slot->0)->0).holders > 0,
        templates.fills(request) <==> templates.waits(request) && request.filling && (
        templates.held(request.slot->0)->0).filling,
        templates.waits(request) ==> forall|manifest: Manifest, recipe: Option<Seq<u8>>|
            (#[trigger] templates.reached(manifest, recipe, request)).0 == request.slot->0,
{
}

/// A serving template ends when its host is gone, when a fork fails, when it is
/// dropped, or when it has been idle for its time. Its host is killed where it
/// can no longer be trusted, and stopped else. Its idle time starts again when
/// its last descendant is gone.
pub proof fn law_how_a_serving_template_ends(owner: Owner, event: OwnerEvent, now: u128)
    requires
        owner.stage == Stage::Serving,
    ensures
        ({
            let (after, act) = owner.stepped(event, now);
            let lost = event == OwnerEvent::Idle(None) || (event matches OwnerEvent::Forked(Err(_)));
            &&& act == OwnerAct::Kill <==> lost
            &&& lost || event == OwnerEvent::Dropped ==> after.stage == Stage::Gone
            &&& event == OwnerEvent::Dropped ==> act == OwnerAct::Stop
            &&& after.stage == Stage::Gone <==> act == OwnerAct::Kill || act == OwnerAct::Stop
            &&& act == OwnerAct::Stop ==> event == OwnerEvent::Dropped || (event
                matches OwnerEvent::Idle(Some(_)) && after.children == 0)
            &&& after.idle_since == owner.idle_since || after.idle_since == now && after.children
                == 0
            &&& event matches OwnerEvent::Forked(Ok(exits)) ==> (after.children == 0
                ==> after.idle_since == now) && (after.children > 0 ==> after.idle_since
                == owner.idle_since)
            &&& event matches OwnerEvent::Idle(Some(exits)) ==> (exits > 0 && after.children == 0
                ==> after.idle_since == now) && (exits == 0 || after.children > 0
                ==> after.idle_since == owner.idle_since)
        }),
{
}

/// A bring-up that fails with an error is answered with that error.
pub proof fn law_a_bring_up_error_is_passed_on(owner: Owner, event: OwnerEvent, now: u128)
    ensures
        ({
            let act = owner.stepped(event, now).1;
            let said = |error: Seq<char>|
                act matches OwnerAct::Fail { problem, .. } && problem
                    == api::bring_up_failed_problem(error);
            &&& owner.stage == Stage::Spawning ==> (event matches OwnerEvent::Spawned(Err(error))
                ==> said(error@))
            &&& owner.stage == Stage::Preparing ==> (event matches OwnerEvent::Prepared(Err(error))
                ==> said(error@))
            &&& owner.stage == Stage::Starting ==> (event matches OwnerEvent::Started(Err(error))
                ==> said(error@))
            &&& owner.stage == Stage::Initializing ==> (event matches OwnerEvent::Initialized(
                Err(error),
            ) ==> said(error@))
            &&& owner.stage == Stage::Freezing ==> (event matches OwnerEvent::Froze(Err(error))
                ==> said(error@))
        }),
{
}

/// Time has passed where at least the given span lies between two moments.
pub proof fn law_when_time_has_passed(since: u128, now: u128, ttl: u128)
    ensures
        now >= since ==> (has_passed(since, now, ttl) <==> since + ttl <= now),
        now < since ==> (has_passed(since, now, ttl) <==> ttl == 0),
{
}

/// A request uses a template only where it was filled for the request's own
/// service and version. A request that waits for a slot of its own goes on to
/// do so.
pub proof fn law_a_template_is_used_for_its_own_service(
    before: Templates,
    manifest: Manifest,
    recipe: Option<Seq<u8>>,
    request: Request,
    after: Templates,
    then: Request,
    does: Obtain,
    id: u64,
)
    requires
        obtains(before, manifest, recipe, request, after, then, does),
        !(recipe is None && request.base is Some),
        before.waits(request) ==> (before.held(request.slot->0)->0).key == key_wanted(
            manifest,
            recipe,
            request,
        ),
    ensures
        ({
            let slot = before.reached(manifest, recipe, request).1;
            &&& slot.key.name == manifest.service.name@
            &&& slot.key.version == manifest.service.version@
            &&& does == Obtain::Use(id) || does == Obtain::Base(id) ==> slot.template == Some(
                Template { id, alive: true },
            )
            &&& does == Obtain::Use(id) && request.base is Some ==> slot.key.recipe == Some(
                digest::sha256(recipe->0),
            )
            &&& after.waits(then) ==> (after.held(then.slot->0)->0).key == key_wanted(
                manifest,
                recipe,
                then,
            )
        }),
{
    if !before.waits(request) {
        law_a_request_comes_to_its_own_slot(before, manifest, recipe, request);
        let key = key_wanted(manifest, recipe, request);
        assert(before.reached(manifest, recipe, request).1.key == key);
    }
}

/// What an owner does and what a slot holds is seen as it is.
pub proof fn law_what_is_seen_is_what_is_there(action: OwnerAction, slot: Slot)
    ensures
        action is Wait <==> action@ is Wait,
        action is Prepare <==> action@ is Prepare,
        action is Start <==> action@ is Start,
        action is Freeze <==> action@ is Freeze,
        action is Offer <==> action@ is Offer,
        action is Stop <==> action@ is Stop,
        action is Kill <==> action@ is Kill,
        action matches OwnerAction::Fail { problem, kill } ==> action@ == (OwnerAct::Fail {
            problem: problem@,
            kill,
        }),
        slot@.key == slot.key@,
        slot@.mapped == slot.mapped,
        slot@.filling == slot.filling,
        slot@.template == slot.template,
        slot@.holders == slot.holders,
{
}

/// A recipe that is given is taken whole.
pub proof fn law_a_given_recipe_is_taken_whole(recipe: &[u8])
    ensures
        bytes_view(Some(recipe)) == Some(recipe@),
        bytes_view(None) is None,
{
}

} // verus!
