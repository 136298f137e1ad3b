//! The product catalogue service: products under increasing ids, their
//! pictures, and what each request of the service answers.

use std::collections::HashMap;
use vstd::prelude::*;
use vstd::std_specs::iter::IteratorSpec;

verus! {

broadcast use vstd::std_specs::hash::group_hash_axioms;

/// The id of a product.
pub type ProductId = u64;

/// A product: a name and a description.
pub struct Product {
    pub name: String,
    pub description: String,
}

/// `(name, description)` of a product.
pub open spec fn product_view(p: Product) -> (Seq<char>, Seq<char>) {
    (p.name@, p.description@)
}

impl Product {
    /// A copy of the product.
    pub fn duplicate(&self) -> (p: Product)
        ensures
            product_view(p) == product_view(*self),
    {
        Product { name: self.name.clone(), description: self.description.clone() }
    }
}

/// A product with its id, as the service answers it.
pub struct ProductWithId(pub ProductId, pub Product);

/// `(id, (name, description))` of a product with its id.
pub open spec fn entry_view(e: ProductWithId) -> (u64, (Seq<char>, Seq<char>)) {
    (e.0, product_view(e.1))
}

/// The products, the pictures set for ids, and the next id to give.
pub struct Products {
    products: HashMap<ProductId, Product>,
    images: HashMap<ProductId, Vec<u8>>,
    max_id: ProductId,
}

impl Products {
    /// Every product has an id below the next one.
    #[verifier::type_invariant]
    spec fn ids_below_next(self) -> bool {
        forall|id: u64| #[trigger] self.products@.contains_key(id) ==> id < self.max_id
    }

    /// The products by id.
    pub closed spec fn catalogue(&self) -> Map<ProductId, (Seq<char>, Seq<char>)> {
        self.products@.map_values(|p: Product| product_view(p))
    }

    /// The pictures by id.
    pub closed spec fn pictures(&self) -> Map<ProductId, Seq<u8>> {
        self.images@.map_values(|v: Vec<u8>| v@)
    }

    /// The id the next product gets.
    pub closed spec fn next_id(&self) -> ProductId {
        self.max_id
    }

    /// The id the next product gets.
    pub fn upcoming_id(&self) -> (id: ProductId)
        ensures
            id == self.next_id(),
    {
        self.max_id
    }

    /// No products, no pictures; the first id is 0.
    pub fn new() -> (p: Self)
        ensures
            p.catalogue() == Map::<ProductId, (Seq<char>, Seq<char>)>::empty(),
            p.pictures() == Map::<ProductId, Seq<u8>>::empty(),
            p.next_id() == 0,
    {
        let p = Products { products: HashMap::new(), images: HashMap::new(), max_id: 0 };
        assert(p.catalogue() =~= Map::<ProductId, (Seq<char>, Seq<char>)>::empty());
        assert(p.pictures() =~= Map::<ProductId, Seq<u8>>::empty());
        p
    }

    /// The ids of the catalogue are those of the map it views.
    proof fn lemma_catalogue_keys(&self)
        ensures
            self.catalogue().dom() == self.products@.dom(),
            forall|id: u64| #[trigger] self.products@.contains_key(id) ==> self.catalogue()[id] == product_view(self.products@[id]),
    {
        assert(self.catalogue().dom() =~= self.products@.dom());
    }

    /// Adds a product under the next id, which it answers with the product.
    pub fn push(&mut self, product: Product) -> (added: ProductWithId)
        requires
            old(self).next_id() < u64::MAX,
        ensures
            added.0 == old(self).next_id(),
            product_view(added.1) == product_view(product),
            !old(self).catalogue().contains_key(added.0),
            final(self).catalogue() == old(self).catalogue().insert(added.0, product_view(product)),
            final(self).next_id() == old(self).next_id() + 1,
            final(self).pictures() == old(self).pictures(),
    {
        proof {
            use_type_invariant(&*self);
        }
        let id = self.max_id;
        self.max_id = self.max_id + 1;
        let copy = product.duplicate();
        let mut map = HashMap::new();
        std::mem::swap(&mut map, &mut self.products);
        map.insert(id, copy);
        std::mem::swap(&mut map, &mut self.products);
        assert(final(self).catalogue() =~= old(self).catalogue().insert(id, product_view(product)));
        ProductWithId(id, product)
    }

    /// The product with the given id.
    pub fn get(&self, id: ProductId) -> (p: Option<Product>)
        ensures
            match p {
                Some(q) => self.catalogue().contains_key(id) && product_view(q) == self.catalogue()[id],
                None => !self.catalogue().contains_key(id),
            },
    {
        proof {
            self.lemma_catalogue_keys();
        }
        match self.products.get(&id) {
            Some(q) => Some(q.duplicate()),
            None => None,
        }
    }

    /// Removes the product with the given id and answers it.
    pub fn remove(&mut self, id: ProductId) -> (p: Option<Product>)
        ensures
            match p {
                Some(q) => old(self).catalogue().contains_key(id) && product_view(q) == old(self).catalogue()[id],
                None => !old(self).catalogue().contains_key(id),
            },
            final(self).catalogue() == old(self).catalogue().remove(id),
            final(self).next_id() == old(self).next_id(),
            final(self).pictures() == old(self).pictures(),
    {
        proof {
            use_type_invariant(&*self);
            self.lemma_catalogue_keys();
        }
        let mut map = HashMap::new();
        std::mem::swap(&mut map, &mut self.products);
        let p = map.remove(&id);
        std::mem::swap(&mut map, &mut self.products);
        assert(final(self).catalogue() =~= old(self).catalogue().remove(id));
        p
    }

    /// Replaces the product with the given id, where there is one, and
    /// answers the one it replaced; changes nothing where there is none.
    pub fn put(&mut self, id: ProductId, product: Product) -> (p: Option<Product>)
        ensures
            match p {
                Some(q) => {
                    &&& old(self).catalogue().contains_key(id)
                    &&& product_view(q) == old(self).catalogue()[id]
                    &&& final(self).catalogue() == old(self).catalogue().insert(id, product_view(product))
                },
                None => !old(self).catalogue().contains_key(id) && final(self).catalogue() == old(self).catalogue(),
            },
            final(self).next_id() == old(self).next_id(),
            final(self).pictures() == old(self).pictures(),
    {
        proof {
            use_type_invariant(&*self);
            self.lemma_catalogue_keys();
        }
        let mut map = HashMap::new();
        std::mem::swap(&mut map, &mut self.products);
        let answer = match map.remove(&id) {
            Some(p) => {
                map.insert(id, product);
                Some(p)
            },
            None => None,
        };
        std::mem::swap(&mut map, &mut self.products);
        if answer.is_some() {
            assert(final(self).catalogue() =~= old(self).catalogue().insert(id, product_view(product)));
        } else {
            assert(final(self).catalogue() =~= old(self).catalogue());
        }
        answer
    }

    /// Every product with its id, each once, in no particular order.
    pub fn products(&self) -> (all: Vec<ProductWithId>)
        ensures
            all@.len() == self.catalogue().dom().len(),
            forall|i: int| #![trigger all@[i]] 0 <= i < all@.len() ==> self.catalogue().contains_key(all@[i].0)
                && product_view(all@[i].1) == self.catalogue()[all@[i].0],
            forall|i: int, j: int| 0 <= i < j < all@.len() ==> all@[i].0 != all@[j].0,
            forall|id: u64| #[trigger] self.catalogue().contains_key(id) ==> exists|i: int| 0 <= i < all@.len() && all@[i].0 == id,
    {
        proof {
            self.lemma_catalogue_keys();
        }
        let mut all: Vec<ProductWithId> = Vec::new();
        let entries = self.products.iter();
        let ghost pairs = entries.remaining();
        assert(pairs.no_duplicates());
        for entry in it: entries
            invariant
                it.seq() == pairs,
                all@.len() == it.index(),
                forall|i: int| 0 <= i < all@.len() ==> all@[i].0 == *it.seq()[i].0 && product_view(all@[i].1) == product_view(*it.seq()[i].1),
        {
            let (id, p) = entry;
            all.push(ProductWithId(*id, p.duplicate()));
        }
        assert forall|i: int, j: int| 0 <= i < j < all@.len() implies all@[i].0 != all@[j].0 by {
            if all@[i].0 == all@[j].0 {
                assert(self.products@.contains_key(*pairs[i].0));
                assert(self.products@[*pairs[i].0] == *pairs[i].1);
                assert(self.products@.contains_key(*pairs[j].0));
                assert(self.products@[*pairs[j].0] == *pairs[j].1);
                assert(pairs[i] == pairs[j]);
            }
        }
        all
    }

    /// Sets the picture of an id.
    pub fn set_picture(&mut self, id: ProductId, pic: Vec<u8>)
        ensures
            final(self).pictures() == old(self).pictures().insert(id, pic@),
            final(self).catalogue() == old(self).catalogue(),
            final(self).next_id() == old(self).next_id(),
    {
        proof {
            use_type_invariant(&*self);
        }
        let ghost data = pic@;
        let mut map = HashMap::new();
        std::mem::swap(&mut map, &mut self.images);
        map.insert(id, pic);
        std::mem::swap(&mut map, &mut self.images);
        assert(final(self).pictures() =~= old(self).pictures().insert(id, data));
    }

    /// The picture of an id.
    pub fn get_picture(&self, id: ProductId) -> (pic: Option<Vec<u8>>)
        ensures
            match pic {
                Some(v) => self.pictures().contains_key(id) && v@ == self.pictures()[id],
                None => !self.pictures().contains_key(id),
            },
    {
        assert(self.pictures().dom() =~= self.images@.dom());
        match self.images.get(&id) {
            Some(v) => Some(v.clone()),
            None => None,
        }
    }
}

impl Default for Products {
    /// The empty catalogue.
    fn default() -> (p: Self)
        ensures
            p.catalogue() == Map::<ProductId, (Seq<char>, Seq<char>)>::empty(),
            p.pictures() == Map::<ProductId, Seq<u8>>::empty(),
            p.next_id() == 0,
    {
        Products::new()
    }
}

/// The fields a change request may set; a missing one keeps its value.
pub struct ProductPatch {
    pub name: Option<String>,
    pub description: Option<String>,
}

/// A product with a patch applied.
pub open spec fn patched(old: (Seq<char>, Seq<char>), patch: ProductPatch) -> (Seq<char>, Seq<char>) {
    (
        match patch.name {
            Some(n) => n@,
            None => old.0,
        },
        match patch.description {
            Some(d) => d@,
            None => old.1,
        },
    )
}

/// `POST /product/`: adds the product and answers it with its id.
pub fn create_product(products: &mut Products, product: Product) -> (added: ProductWithId)
    requires
        old(products).next_id() < u64::MAX,
    ensures
        added.0 == old(products).next_id(),
        product_view(added.1) == product_view(product),
        final(products).catalogue() == old(products).catalogue().insert(added.0, product_view(product)),
        final(products).next_id() == old(products).next_id() + 1,
        final(products).pictures() == old(products).pictures(),
{
    products.push(product)
}

/// `GET /product/{id}`: the product with its id; `None` answers 404.
pub fn get_product(products: &Products, id: ProductId) -> (found: Option<ProductWithId>)
    ensures
        match found {
            Some(e) => products.catalogue().contains_key(id) && entry_view(e) == (id, products.catalogue()[id]),
            None => !products.catalogue().contains_key(id),
        },
{
    match products.get(id) {
        Some(p) => Some(ProductWithId(id, p)),
        None => None,
    }
}

/// `DELETE /product/{id}`: removes the product and answers it; `None`
/// answers 404.
pub fn remove_product(products: &mut Products, id: ProductId) -> (removed: Option<ProductWithId>)
    ensures
        match removed {
            Some(e) => old(products).catalogue().contains_key(id) && entry_view(e) == (id, old(products).catalogue()[id]),
            None => !old(products).catalogue().contains_key(id),
        },
        final(products).catalogue() == old(products).catalogue().remove(id),
        final(products).next_id() == old(products).next_id(),
        final(products).pictures() == old(products).pictures(),
{
    match products.remove(id) {
        Some(p) => Some(ProductWithId(id, p)),
        None => None,
    }
}

/// `GET /products`: every product with its id.
pub fn all_products(products: &Products) -> (all: Vec<ProductWithId>)
    ensures
        all@.len() == products.catalogue().dom().len(),
        forall|i: int| #![trigger all@[i]] 0 <= i < all@.len() ==> products.catalogue().contains_key(all@[i].0)
            && product_view(all@[i].1) == products.catalogue()[all@[i].0],
        forall|i: int, j: int| 0 <= i < j < all@.len() ==> all@[i].0 != all@[j].0,
        forall|id: u64| #[trigger] products.catalogue().contains_key(id) ==> exists|i: int| 0 <= i < all@.len() && all@[i].0 == id,
{
    products.products()
}

/// `PUT /product/{id}`: applies the patch to the product and answers the
/// result; `None` answers 404 and changes nothing.
pub fn change_product(products: &mut Products, id: ProductId, patch: ProductPatch) -> (changed: Option<ProductWithId>)
    ensures
        match changed {
            Some(e) => {
                &&& old(products).catalogue().contains_key(id)
                &&& entry_view(e) == (id, patched(old(products).catalogue()[id], patch))
                &&& final(products).catalogue() == old(products).catalogue().insert(id, patched(old(products).catalogue()[id], patch))
            },
            None => !old(products).catalogue().contains_key(id) && final(products).catalogue() == old(products).catalogue(),
        },
        final(products).next_id() == old(products).next_id(),
        final(products).pictures() == old(products).pictures(),
{
    match products.get(id) {
        Some(old_product) => {
            let ProductPatch { name, description } = patch;
            let new_name = match name {
                Some(n) => n,
                None => old_product.name,
            };
            let new_description = match description {
                Some(d) => d,
                None => old_product.description,
            };
            let new = Product { name: new_name, description: new_description };
            let copy = new.duplicate();
            let replaced = products.put(id, copy);
            assert(replaced is Some);
            Some(ProductWithId(id, new))
        },
        None => None,
    }
}

/// `POST /product/{id}/image`: sets the picture of an existing product;
/// `false` answers 404 and changes nothing.
pub fn set_picture(products: &mut Products, id: ProductId, pic: Vec<u8>) -> (found: bool)
    ensures
        found == old(products).catalogue().contains_key(id),
        final(products).pictures() == if found {
            old(products).pictures().insert(id, pic@)
        } else {
            old(products).pictures()
        },
        final(products).catalogue() == old(products).catalogue(),
        final(products).next_id() == old(products).next_id(),
{
    match products.get(id) {
        Some(_) => {
            products.set_picture(id, pic);
            true
        },
        None => false,
    }
}

/// `GET /product/{id}/image`: the picture of the id; `None` answers 404.
pub fn get_picture(products: &Products, id: ProductId) -> (pic: Option<Vec<u8>>)
    ensures
        match pic {
            Some(v) => products.pictures().contains_key(id) && v@ == products.pictures()[id],
            None => !products.pictures().contains_key(id),
        },
{
    products.get_picture(id)
}

/// A product read back right after it was added is the product added, and
/// the products that were there before are unchanged.
pub proof fn lemma_get_after_create(before: Products, after: Products, added: ProductWithId, product: Product)
    requires
        added.0 == before.next_id(),
        !before.catalogue().contains_key(added.0),
        after.catalogue() == before.catalogue().insert(added.0, product_view(product)),
    ensures
        after.catalogue().contains_key(added.0),
        after.catalogue()[added.0] == product_view(product),
        forall|id: ProductId| #[trigger] before.catalogue().contains_key(id) ==> after.catalogue().contains_key(id)
            && after.catalogue()[id] == before.catalogue()[id],
        after.catalogue().dom().len() == before.catalogue().dom().len() + 1,
{
    assert(after.catalogue().dom() =~= before.catalogue().dom().insert(added.0));
    assert(before.catalogue().dom() =~= before.products@.dom());
}

/// A removed product can no longer be read, and the others are unchanged.
pub proof fn lemma_get_after_remove(before: Products, after: Products, id: ProductId)
    requires
        after.catalogue() == before.catalogue().remove(id),
    ensures
        !after.catalogue().contains_key(id),
        forall|other: ProductId| other != id && #[trigger] before.catalogue().contains_key(other) ==> after.catalogue().contains_key(other)
            && after.catalogue()[other] == before.catalogue()[other],
{
}

/// Changing a product twice with the same patch changes it once.
pub proof fn lemma_patch_idempotent(p: (Seq<char>, Seq<char>), patch: ProductPatch)
    ensures
        patched(patched(p, patch), patch) == patched(p, patch),
{
}

/// A change sets each field the patch carries to the patch's value and
/// keeps each field the patch leaves out; a patch that carries both fields
/// gives the same product whatever the product was before.
pub proof fn lemma_patch_sets_given_fields(p: (Seq<char>, Seq<char>), q: (Seq<char>, Seq<char>), patch: ProductPatch)
    ensures
        patch.name matches Some(n) ==> patched(p, patch).0 == n@,
        patch.name is None ==> patched(p, patch).0 == p.0,
        patch.description matches Some(d) ==> patched(p, patch).1 == d@,
        patch.description is None ==> patched(p, patch).1 == p.1,
        patch.name is Some && patch.description is Some ==> patched(p, patch) == patched(q, patch),
{
}

/// A picture read back right after it was set is the picture set.
pub proof fn lemma_picture_round_trip(before: Products, after: Products, id: ProductId, pic: Seq<u8>)
    requires
        before.catalogue().contains_key(id),
        after.pictures() == before.pictures().insert(id, pic),
    ensures
        after.pictures().contains_key(id),
        after.pictures()[id] == pic,
{
}

/// Whether a call that led from `before` to `after` left the pictures
/// alone or set the picture of an id other than `id`: what every call but
/// `set_picture(id, _)` does.
pub open spec fn keeps_picture_of(before: Products, after: Products, id: ProductId) -> bool {
    ||| after.pictures() == before.pictures()
    ||| exists|other: ProductId, pic: Seq<u8>| other != id && after.pictures() == before.pictures().insert(other, pic)
}

/// A picture set for an id is read back after any run of calls none of
/// which sets that id's picture again.
pub proof fn lemma_picture_persists(states: Seq<Products>, id: ProductId, pic: Seq<u8>)
    requires
        states.len() > 0,
        states[0].pictures().contains_key(id),
        states[0].pictures()[id] == pic,
        forall|i: int| 0 <= i < states.len() - 1 ==> keeps_picture_of(#[trigger] states[i], states[i + 1], id),
    ensures
        states.last().pictures().contains_key(id),
        states.last().pictures()[id] == pic,
    decreases states.len(),
{
    if states.len() > 1 {
        let front = states.drop_last();
        assert forall|i: int| 0 <= i < front.len() - 1 implies keeps_picture_of(#[trigger] front[i], front[i + 1], id) by {
            assert(front[i] == states[i] && front[i + 1] == states[i + 1]);
            assert(keeps_picture_of(states[i], states[i + 1], id));
        }
        lemma_picture_persists(front, id, pic);
        let i = states.len() - 2;
        assert(front.last() == states[i]);
        assert(keeps_picture_of(states[i], states[i + 1], id));
        assert(states.last() == states[i + 1]);
    }
}

} // verus!
