use vstd::prelude::*;
use vstd::string::StringExecFns;

verus! {

/// One catalog item.
pub struct Data {
    pub id: i32,
    pub name: String,
    pub summary: String,
    pub tags: Vec<String>,
}

impl Data {
    /// The item as it is shown to a user: its name and its summary.
    pub fn display(&self) -> (r: String)
        ensures
            r@ == "Name: "@ + self.name@ + ", Summary: "@ + self.summary@,
    {
        let mut r = String::from_str("Name: ");
        r.append(self.name.as_str());
        r.append(", Summary: ");
        r.append(self.summary.as_str());
        r
    }
}

/// Why a catalog store could not be built.
#[derive(Debug, PartialEq, Eq, Structural, Clone, Copy)]
pub enum BuildError {
    /// The records could not be read, or do not form a catalog.
    DataSourceError,
    /// The embedding provider did not give one vector per item.
    EmbeddingProviderError,
}

/// No two records share an id.
pub open spec fn ids_unique(items: Seq<Data>) -> bool {
    forall|i: int, j: int| 0 <= i < j < items.len() ==> #[trigger] items[i].id != #[trigger] items[j].id
}

/// The catalog: every item with a slot for its embedding, in the order the
/// records came in. Slots start empty and are filled all at once.
pub struct CatalogStore<E> {
    items: Vec<Data>,
    slots: Vec<Option<E>>,
}

impl<E> CatalogStore<E> {
    pub closed spec fn items(&self) -> Seq<Data> {
        self.items@
    }

    pub closed spec fn slots(&self) -> Seq<Option<E>> {
        self.slots@
    }

    /// One slot per item.
    pub open spec fn wf(&self) -> bool {
        self.items().len() == self.slots().len()
    }

    /// Every item has its embedding.
    pub open spec fn populated(&self) -> bool {
        forall|i: int| 0 <= i < self.slots().len() ==> (#[trigger] self.slots()[i]) is Some
    }

    /// Whether the records `records` have pairwise distinct ids.
    pub fn unique_ids(records: &Vec<Data>) -> (r: bool)
        ensures
            r == ids_unique(records@),
    {
        let mut i: usize = 0;
        while i < records.len()
            invariant
                i <= records@.len(),
                forall|a: int, b: int|
                    0 <= a < b < records@.len() && a < i ==> #[trigger] records@[a].id
                        != #[trigger] records@[b].id,
            decreases records@.len() - i,
        {
            let mut j: usize = i + 1;
            while j < records.len()
                invariant
                    i < records@.len(),
                    i + 1 <= j <= records@.len(),
                    forall|b: int| i < b < j ==> records@[i as int].id != #[trigger] records@[b].id,
                decreases records@.len() - j,
            {
                if records[i].id == records[j].id {
                    proof {
                        assert(records@[i as int].id == records@[j as int].id);
                    }
                    return false;
                }
                j += 1;
            }
            i += 1;
        }
        true
    }

    /// A store of the records `records`, every slot empty; fails with
    /// `DataSourceError` exactly when two records share an id.
    pub fn from_records(records: Vec<Data>) -> (r: Result<CatalogStore<E>, BuildError>)
        ensures
            r is Ok <==> ids_unique(records@),
            r is Err ==> (r matches Err(BuildError::DataSourceError)),
            r matches Ok(s) ==> (s.wf() && s.items() == records@ && forall|i: int|
                0 <= i < s.slots().len() ==> (#[trigger] s.slots()[i]) is None),
    {
        if !Self::unique_ids(&records) {
            return Err(BuildError::DataSourceError);
        }
        let mut slots: Vec<Option<E>> = Vec::new();
        let mut i: usize = 0;
        while i < records.len()
            invariant
                i <= records@.len(),
                slots@.len() == i,
                forall|k: int| 0 <= k < i ==> (#[trigger] slots@[k]) is None,
            decreases records@.len() - i,
        {
            slots.push(None);
            i += 1;
        }
        Ok(CatalogStore { items: records, slots })
    }

    /// Fills every slot, by position: item `i` gets `embeddings[i]`. Fails
    /// with `EmbeddingProviderError`, and changes nothing, when there is not
    /// exactly one embedding per item.
    pub fn insert_embeddings(&mut self, embeddings: Vec<E>) -> (r: Result<(), BuildError>)
        requires
            old(self).wf(),
        ensures
            final(self).wf(),
            final(self).items() == old(self).items(),
            r is Ok <==> embeddings@.len() == old(self).items().len(),
            r is Err ==> (r matches Err(BuildError::EmbeddingProviderError)),
            r is Err ==> final(self).slots() == old(self).slots(),
            r is Ok ==> final(self).populated() && forall|i: int|
                0 <= i < embeddings@.len() ==> #[trigger] final(self).slots()[i] == Some(
                    embeddings@[i],
                ),
    {
        if embeddings.len() != self.items.len() {
            return Err(BuildError::EmbeddingProviderError);
        }
        let ghost given = embeddings@;
        let n = embeddings.len();
        let mut rest = embeddings;
        // taken from the back, so they come out of `backwards` in order
        let mut backwards: Vec<E> = Vec::new();
        while rest.len() > 0
            invariant
                rest@.len() + backwards@.len() == n,
                n == given.len(),
                forall|k: int| 0 <= k < rest@.len() ==> #[trigger] rest@[k] == given[k],
                forall|k: int|
                    0 <= k < backwards@.len() ==> #[trigger] backwards@[k] == given[n - 1 - k],
            decreases rest@.len(),
        {
            let e = rest.pop().unwrap();
            backwards.push(e);
        }
        let mut slots: Vec<Option<E>> = Vec::new();
        while backwards.len() > 0
            invariant
                slots@.len() + backwards@.len() == n,
                n == given.len(),
                forall|k: int|
                    0 <= k < backwards@.len() ==> #[trigger] backwards@[k] == given[n - 1 - k],
                forall|k: int| 0 <= k < slots@.len() ==> #[trigger] slots@[k] == Some(given[k]),
            decreases backwards@.len(),
        {
            let e = backwards.pop().unwrap();
            slots.push(Some(e));
        }
        self.slots = slots;
        Ok(())
    }

    /// How many items the store holds.
    pub fn len(&self) -> (r: usize)
        requires
            self.wf(),
        ensures
            r == self.items().len(),
    {
        self.items.len()
    }

    /// Item `i`.
    pub fn item(&self, i: usize) -> (r: &Data)
        requires
            i < self.items().len(),
        ensures
            *r == self.items()[i as int],
    {
        &self.items[i]
    }

    /// The embedding of item `i`, if it has one.
    pub fn embedding(&self, i: usize) -> (r: Option<&E>)
        requires
            self.wf(),
            i < self.items().len(),
        ensures
            r is None <==> self.slots()[i as int] is None,
            r matches Some(e) ==> self.slots()[i as int] == Some(*e),
    {
        match &self.slots[i] {
            Some(e) => Some(e),
            None => None,
        }
    }

    /// The items' summaries, in the order of the items: what the embedding
    /// provider is asked to embed.
    pub fn summaries(&self) -> (r: Vec<String>)
        ensures
            r@.len() == self.items().len(),
            forall|i: int| 0 <= i < r@.len() ==> #[trigger] r@[i] == self.items()[i].summary,
    {
        let mut r: Vec<String> = Vec::new();
        let mut i: usize = 0;
        while i < self.items.len()
            invariant
                i <= self.items@.len(),
                r@.len() == i,
                forall|k: int| 0 <= k < i ==> #[trigger] r@[k] == self.items@[k].summary,
            decreases self.items@.len() - i,
        {
            r.push(self.items[i].summary.clone());
            i += 1;
        }
        r
    }
}

} // verus!
