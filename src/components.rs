use crate::entity::EntityId;
use crate::geometry::Point;
use vstd::prelude::*;

verus! {

/// Position and heading of an entity. `rotation` is in degrees, kept in
/// `[0, 360)` by the systems that change it.
#[derive(Clone, Copy, Debug, PartialEq, Eq, Structural)]
pub struct Transform {
    pub position: Point,
    pub rotation: u32,
}

impl Transform {
    pub fn new(x: i64, y: i64) -> (r: Transform)
        ensures
            r == (Transform { position: Point { x, y }, rotation: 0 }),
    {
        Transform { position: Point { x, y }, rotation: 0 }
    }

    pub fn default() -> (r: Transform)
        ensures
            r == (Transform { position: Point { x: 0, y: 0 }, rotation: 0 }),
    {
        Transform::new(0, 0)
    }
}

/// Velocity and acceleration, per tick, in fixed-point units.
#[derive(Clone, Copy, Debug, PartialEq, Eq, Structural)]
pub struct Physicsable {
    pub velocity: Point,
    pub acceleration: Point,
}

impl Physicsable {
    pub fn new(x: i64, y: i64) -> (r: Physicsable)
        ensures
            r == (Physicsable { velocity: Point { x, y }, acceleration: Point { x: 0, y: 0 } }),
    {
        Physicsable { velocity: Point { x, y }, acceleration: Point { x: 0, y: 0 } }
    }
}

/// A closed polygon in entity-local coordinates.
#[derive(Debug)]
pub struct Collidable {
    pub bounds: Vec<Point>,
}

impl Collidable {
    pub fn new(bounds: Vec<Point>) -> (r: Collidable)
        ensures
            r.bounds@ == bounds@,
    {
        Collidable { bounds }
    }
}

/// A colour, one byte per channel.
#[derive(Clone, Copy, Debug, PartialEq, Eq, Structural)]
pub struct Color {
    pub r: u8,
    pub g: u8,
    pub b: u8,
}

/// What a renderer needs to draw an entity: an outline in entity-local
/// coordinates, its colour, and the offset of the drawing's origin.
#[derive(Debug)]
pub struct Drawable {
    pub outline: Vec<Point>,
    pub color: Color,
    pub offset: Point,
}

impl Drawable {
    pub fn new(outline: Vec<Point>, color: Color, offset: Point) -> (r: Drawable)
        ensures
            r.outline@ == outline@,
            r.color == color,
            r.offset == offset,
    {
        Drawable { outline, color, offset }
    }
}

/// Time to live: created at `created`, to be removed once more than
/// `expiration` milliseconds have passed.
#[derive(Clone, Copy, Debug, PartialEq, Eq, Structural)]
pub struct Expirable {
    pub created: u64,
    pub expiration: u64,
}

/// Milliseconds from `from` to `now`; zero when `now` precedes `from`.
pub open spec fn elapsed(from: u64, now: u64) -> int {
    if now >= from {
        now - from
    } else {
        0
    }
}

impl Expirable {
    /// A lifetime of `expiration` milliseconds starting at `now`.
    pub fn new(expiration: u64, now: u64) -> (r: Expirable)
        ensures
            r == (Expirable { created: now, expiration }),
    {
        Expirable { created: now, expiration }
    }

    /// More than `expiration` milliseconds have passed by `now`.
    pub fn is_expired(&self, now: u64) -> (r: bool)
        ensures
            r == (elapsed(self.created, now) > self.expiration),
    {
        now >= self.created && now - self.created > self.expiration
    }
}

/// The entity the player steers; remembers when it last fired.
#[derive(Clone, Copy, Debug, PartialEq, Eq, Structural)]
pub struct PlayerControllable {
    pub last_fired: Option<u64>,
}

impl PlayerControllable {
    /// A controllable entity that has never fired.
    pub fn new() -> (r: PlayerControllable)
        ensures
            r.last_fired.is_none(),
    {
        PlayerControllable { last_fired: None }
    }
}

/// The archetype of an entity.
#[derive(Clone, Copy, Debug, PartialEq, Eq, Structural)]
pub enum TagType {
    Ship,
    Shape(u8),
    Bullet,
}

#[derive(Clone, Copy, Debug, PartialEq, Eq, Structural)]
pub struct Tag {
    pub tag_type: TagType,
}

impl Tag {
    pub fn new(tag_type: TagType) -> (r: Tag)
        ensures
            r.tag_type == tag_type,
    {
        Tag { tag_type }
    }
}

/// A kind of harm.
#[derive(Clone, Copy, Debug, PartialEq, Eq, Structural)]
pub enum DamageType {
    Projectile,
    Smash,
}

/// The kind of harm an entity deals on contact.
#[derive(Clone, Copy, Debug, PartialEq, Eq, Structural)]
pub struct Damage {
    pub damage_type: DamageType,
}

impl Damage {
    pub fn new(damage_type: DamageType) -> (r: Damage)
        ensures
            r.damage_type == damage_type,
    {
        Damage { damage_type }
    }
}

/// The kinds of harm an entity can take.
#[derive(Debug)]
pub struct Vulnerable {
    pub damage_types: Vec<DamageType>,
}

impl Vulnerable {
    pub fn new(damage_types: Vec<DamageType>) -> (r: Vulnerable)
        ensures
            r.damage_types@ == damage_types@,
    {
        Vulnerable { damage_types }
    }
}

/// Signal: two entities overlapped during this tick.
#[derive(Clone, Copy, Debug, PartialEq, Eq, Structural)]
pub struct Collision {
    pub entity1: EntityId,
    pub entity2: EntityId,
}

impl Collision {
    pub fn new(entity1: EntityId, entity2: EntityId) -> (r: Collision)
        ensures
            r == (Collision { entity1, entity2 }),
    {
        Collision { entity1, entity2 }
    }
}

/// Signal: an entity took damage during this tick.
#[derive(Clone, Copy, Debug, PartialEq, Eq, Structural)]
pub struct Damaged {
    pub entity: EntityId,
}

impl Damaged {
    pub fn new(entity: EntityId) -> (r: Damaged)
        ensures
            r == (Damaged { entity }),
    {
        Damaged { entity }
    }
}

/// Marker of a projectile.
#[derive(Clone, Copy, Debug, PartialEq, Eq, Structural)]
pub struct Bullet {}

impl Bullet {
    pub fn new() -> (r: Bullet)
        ensures
            r == (Bullet {}),
    {
        Bullet {}
    }
}

/// Marker of the player's ship.
#[derive(Clone, Copy, Debug, PartialEq, Eq, Structural)]
pub struct Ship {}

impl Ship {
    pub fn new() -> (r: Ship)
        ensures
            r == (Ship {}),
    {
        Ship {}
    }
}

/// The outline family of a shape.
#[derive(Clone, Copy, Debug, PartialEq, Eq, Structural)]
pub enum ShapeType {
    Octagon,
    Hexagon,
    Square,
}

/// Marker of a shape, with its outline family.
#[derive(Clone, Copy, Debug, PartialEq, Eq, Structural)]
pub struct Shape {
    pub shape_type: ShapeType,
}

impl Shape {
    pub fn new(shape_type: ShapeType) -> (r: Shape)
        ensures
            r.shape_type == shape_type,
    {
        Shape { shape_type }
    }
}

/// Storage of the components of one kind, at most one per entity, kept in
/// order of first insertion.
pub struct ComponentManager<T> {
    entries: Vec<(EntityId, T)>,
}

impl<T> View for ComponentManager<T> {
    type V = Map<EntityId, T>;

    closed spec fn view(&self) -> Map<EntityId, T> {
        Map::new(
            |e: EntityId| self.order().contains(e),
            |e: EntityId| self.entries@[self.order().index_of(e)].1,
        )
    }
}

impl<T> ComponentManager<T> {
    /// The entities that hold a component here, in order of first insertion.
    pub closed spec fn order(&self) -> Seq<EntityId> {
        self.entries@.map_values(|p: (EntityId, T)| p.0)
    }

    pub closed spec fn wf(&self) -> bool {
        self.order().no_duplicates()
    }

    proof fn lemma_entry(&self, i: int)
        requires
            self.wf(),
            0 <= i < self.entries@.len(),
        ensures
            self@.contains_key(self.entries@[i].0),
            self@[self.entries@[i].0] == self.entries@[i].1,
    {
        let o = self.order();
        assert(o[i] == self.entries@[i].0);
        assert(o.contains(o[i]));
        let j = o.index_of(o[i]);
        assert(o[j] == o[i]);
    }

    /// The order lists each stored entity exactly once.
    pub proof fn lemma_order(&self)
        requires
            self.wf(),
        ensures
            self.order().no_duplicates(),
            self.order().len() == self@.dom().len(),
            forall|e: EntityId| #[trigger] self.order().contains(e) <==> self@.contains_key(e),
            self@.dom().finite(),
    {
        assert(self.order().to_set() =~= self@.dom());
        self.order().unique_seq_to_set();
    }

    pub fn new() -> (r: Self)
        ensures
            r.wf(),
            r@ == Map::<EntityId, T>::empty(),
            r.order() == Seq::<EntityId>::empty(),
    {
        let r = ComponentManager { entries: Vec::new() };
        assert(r.order() =~= Seq::<EntityId>::empty());
        assert(r@ =~= Map::<EntityId, T>::empty());
        r
    }

    fn find(&self, entity: EntityId) -> (r: Option<usize>)
        requires
            self.wf(),
        ensures
            match r {
                Some(i) => i < self.entries@.len() && self.entries@[i as int].0 == entity,
                None => !self@.contains_key(entity),
            },
    {
        let mut i: usize = 0;
        while i < self.entries.len()
            invariant
                self.wf(),
                0 <= i <= self.entries@.len(),
                forall|j: int| 0 <= j < i ==> #[trigger] self.entries@[j].0 != entity,
            decreases self.entries@.len() - i,
        {
            if self.entries[i].0 == entity {
                return Some(i);
            }
            i = i + 1;
        }
        proof {
            if self@.contains_key(entity) {
                let j = choose|j: int| 0 <= j < self.order().len() && self.order()[j] == entity;
                assert(self.entries@[j].0 == entity);
            }
        }
        None
    }

    /// The component of `entity`, if it has one.
    pub fn get(&self, entity: &EntityId) -> (r: Option<&T>)
        requires
            self.wf(),
        ensures
            r.is_some() == self@.contains_key(*entity),
            r.is_some() ==> *r.unwrap() == self@[*entity],
    {
        match self.find(*entity) {
            Some(i) => {
                proof {
                    self.lemma_entry(i as int);
                }
                Some(&self.entries[i].1)
            },
            None => None,
        }
    }

    /// The component of `entity`, if it has one, to change in place.
    pub fn get_mut(&mut self, entity: &EntityId) -> (r: Option<&mut T>)
        requires
            old(self).wf(),
        ensures
            r.is_some() == old(self)@.contains_key(*entity),
            match r {
                Some(v) => {
                    &&& *v == old(self)@[*entity]
                    &&& final(self).wf()
                    &&& final(self)@ == old(self)@.insert(*entity, *final(v))
                    &&& final(self)@.dom() == old(self)@.dom()
                    &&& final(self).order() == old(self).order()
                },
                None => *final(self) == *old(self),
            },
    {
        match self.find(*entity) {
            Some(i) => {
                proof {
                    self.lemma_entry(i as int);
                    let cur = *self;
                    assert forall|m: Self|
                        #![trigger m.wf()]
                        #![trigger m@]
                        m.entries@.len() == cur.entries@.len() && m.entries@[i as int].0 == cur.entries@[i as int].0
                            && (forall|j: int| 0 <= j < cur.entries@.len() && j != i ==> m.entries@[j] == cur.entries@[j])
                        implies m.wf() && m.order() == cur.order() && m@ == cur@.insert(*entity, m.entries@[i as int].1)
                            && m@.dom() == cur@.dom() by {
                        assert(m.entries@ =~= cur.entries@.update(i as int, (cur.entries@[i as int].0, m.entries@[i as int].1)));
                        Self::lemma_set(&cur, &m, i as int, m.entries@[i as int].1);
                        assert(m@.dom() =~= cur@.dom());
                    }
                }
                let entry = &mut self.entries[i];
                Some(&mut entry.1)
            },
            None => None,
        }
    }

    proof fn lemma_set(old_m: &Self, new_m: &Self, i: int, c: T)
        requires
            old_m.wf(),
            0 <= i < old_m.entries@.len(),
            new_m.entries@ == old_m.entries@.update(i, (old_m.entries@[i].0, c)),
        ensures
            new_m.wf(),
            new_m.order() == old_m.order(),
            new_m@ == old_m@.insert(old_m.entries@[i].0, c),
    {
        assert(new_m.entries@[i] == (old_m.entries@[i].0, c));
        let e = old_m.entries@[i].0;
        old_m.lemma_entry(i);
        assert(new_m.order() =~= old_m.order());
        assert forall|x: EntityId| #[trigger] new_m@.contains_key(x) == old_m@.insert(e, c).contains_key(x) by {}
        assert forall|x: EntityId| new_m@.contains_key(x) implies #[trigger] new_m@[x] == old_m@.insert(e, c)[x] by {
            let o = new_m.order();
            let j = choose|j: int| 0 <= j < o.len() && o[j] == x;
            new_m.lemma_entry(j);
            old_m.lemma_entry(j);
            if j != i {
                assert(o[j] != o[i]);
            }
        }
        assert(new_m@ =~= old_m@.insert(e, c));
    }

    /// Stores `component` for `entity`, replacing the one it had.
    pub fn add(&mut self, entity: &EntityId, component: T)
        requires
            old(self).wf(),
        ensures
            final(self).wf(),
            final(self)@ == old(self)@.insert(*entity, component),
            old(self)@.contains_key(*entity) ==> final(self).order() == old(self).order(),
            !old(self)@.contains_key(*entity) ==> final(self).order() == old(self).order().push(
                *entity,
            ),
    {
        let e = *entity;
        let ghost c = component;
        match self.find(e) {
            Some(i) => {
                self.entries.set(i, (e, component));
                proof {
                    Self::lemma_set(old(self), self, i as int, c);
                }
            },
            None => {
                self.entries.push((e, component));
                let ghost o = old(self).order();
                assert(self.order() =~= o.push(e));
                assert(!o.contains(e));
                assert forall|x: EntityId| #[trigger] self@.contains_key(x) == old(self)@.insert(e, c).contains_key(x) by {
                    if o.contains(x) {
                        let j = choose|j: int| 0 <= j < o.len() && o[j] == x;
                        assert(self.order()[j] == x);
                    }
                    if self.order().contains(x) && x != e {
                        let j = choose|j: int| 0 <= j < self.order().len() && self.order()[j] == x;
                        assert(o[j] == x);
                    }
                    if x == e {
                        assert(self.order()[o.len() as int] == e);
                    }
                }
                assert forall|x: EntityId| self@.contains_key(x) implies #[trigger] self@[x] == old(self)@.insert(e, c)[x] by {
                    let n = self.order();
                    let j = choose|j: int| 0 <= j < n.len() && n[j] == x;
                    self.lemma_entry(j);
                    if j < o.len() {
                        old(self).lemma_entry(j);
                    }
                }
                assert(self@ =~= old(self)@.insert(e, c));
            },
        }
    }

    /// Drops the component of `entity`, if it has one.
    pub fn remove(&mut self, entity: &EntityId)
        requires
            old(self).wf(),
        ensures
            final(self).wf(),
            final(self)@ == old(self)@.remove(*entity),
    {
        let e = *entity;
        match self.find(e) {
            Some(i) => {
                self.entries.remove(i);
                let ghost o = old(self).order();
                let ghost n = self.order();
                assert(o[i as int] == e);
                assert(n =~= o.subrange(0, i as int) + o.subrange(i + 1, o.len() as int));
                assert forall|a: int, b: int| 0 <= a < b < n.len() implies n[a] != n[b] by {
                    let a2 = if a < i { a } else { a + 1 };
                    let b2 = if b < i { b } else { b + 1 };
                    assert(n[a] == o[a2]);
                    assert(n[b] == o[b2]);
                }
                assert forall|x: EntityId| #[trigger] self@.contains_key(x) == old(self)@.remove(e).contains_key(x) by {
                    if n.contains(x) {
                        let j = choose|j: int| 0 <= j < n.len() && n[j] == x;
                        let j2 = if j < i { j } else { j + 1 };
                        assert(o[j2] == x);
                        assert(j2 != i);
                    }
                    if o.contains(x) && x != e {
                        let k = choose|k: int| 0 <= k < o.len() && o[k] == x;
                        assert(k != i);
                        if k < i {
                            assert(n[k] == x);
                        } else {
                            assert(n[k - 1] == x);
                        }
                    }
                }
                assert forall|x: EntityId| self@.contains_key(x) implies #[trigger] self@[x] == old(self)@.remove(e)[x] by {
                    let j = choose|j: int| 0 <= j < n.len() && n[j] == x;
                    let j2 = if j < i { j } else { j + 1 };
                    self.lemma_entry(j);
                    old(self).lemma_entry(j2);
                    assert(self.entries@[j] == old(self).entries@[j2]);
                }
                assert(self@ =~= old(self)@.remove(e));
            },
            None => {
                assert(self@ =~= old(self)@.remove(e));
            },
        }
    }

    /// The stored components, in the order of `order()`.
    pub fn components(&self) -> (r: Vec<&T>)
        requires
            self.wf(),
        ensures
            r@.len() == self.order().len(),
            forall|i: int| 0 <= i < r@.len() ==> *#[trigger] r@[i] == self@[self.order()[i]],
    {
        let mut r: Vec<&T> = Vec::new();
        let mut i: usize = 0;
        while i < self.entries.len()
            invariant
                self.wf(),
                0 <= i <= self.entries@.len(),
                r@.len() == i,
                forall|j: int| 0 <= j < i ==> *#[trigger] r@[j] == self@[self.order()[j]],
            decreases self.entries@.len() - i,
        {
            proof {
                self.lemma_entry(i as int);
            }
            r.push(&self.entries[i].1);
            i = i + 1;
        }
        r
    }

    /// The entities holding a component here, in order of first insertion.
    pub fn entities(&self) -> (r: Vec<EntityId>)
        requires
            self.wf(),
        ensures
            r@ == self.order(),
    {
        let mut r: Vec<EntityId> = Vec::new();
        let mut i: usize = 0;
        while i < self.entries.len()
            invariant
                self.wf(),
                0 <= i <= self.entries@.len(),
                r@ == self.order().subrange(0, i as int),
            decreases self.entries@.len() - i,
        {
            r.push(self.entries[i].0);
            i = i + 1;
            assert(r@ =~= self.order().subrange(0, i as int));
        }
        assert(r@ =~= self.order());
        r
    }
}

} // verus!
