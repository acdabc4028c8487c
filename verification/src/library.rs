//! The state that query callers share: whether the data source was found,
//! and the index once it is built. The index is published once and is
//! never taken back or replaced. Until then every listing is empty.

use crate::category::{Bank, Category, Mode};
use crate::index::Index;
use crate::natural::ranks_naturally;
use crate::paginated_result::{page_begin, page_end, page_of, PaginatedResult};
use crate::preset::Preset;
use crate::product::Product;
use crate::query::Selection;
use vstd::prelude::*;

verus! {

/// The shared state of the browser: loading until an index is published.
pub struct Library {
    found: bool,
    index: Option<Index>,
}

impl Library {
    /// Whether the data source was found.
    pub closed spec fn found(&self) -> bool {
        self.found
    }

    /// The index, once it is published.
    pub closed spec fn published(&self) -> Option<Index> {
        self.index
    }

    /// The state at the start: no index yet.
    pub fn new(db_found: bool) -> (library: Library)
        ensures
            library.found() == db_found,
            library.published() is None,
    {
        Library { found: db_found, index: None }
    }

    /// Whether the data source was found.
    pub fn db_found(&self) -> (found: bool)
        ensures
            found == self.found(),
    {
        self.found
    }

    /// Whether the index is still to come.
    pub fn is_loading(&self) -> (loading: bool)
        ensures
            loading == self.published() is None,
    {
        self.index.is_none()
    }

    /// Publishes the index, whole and at once. Only the first index is
    /// taken: a library that has one keeps it, and says so with `false`.
    pub fn publish(&mut self, index: Index) -> (taken: bool)
        ensures
            taken == old(self).published() is None,
            final(self).published() == (if taken {
                Some(index)
            } else {
                old(self).published()
            }),
            final(self).found() == old(self).found(),
    {
        if self.index.is_some() {
            return false;
        }
        self.index = Some(index);
        true
    }

    /// The index to put queries to, once it is published.
    pub fn index(&self) -> (index: Option<&Index>)
        ensures
            match index {
                Some(published) => self.published() == Some(*published),
                None => self.published() is None,
            },
    {
        self.index.as_ref()
    }

    /// The categories that remain under the selection; none while no index
    /// is published.
    pub fn get_categories(&self, selection: &Selection) -> (listed: Vec<&Category>)
        ensures
            match self.published() {
                Some(index) => listed@.unref() == index.categories().filter(index.category_test(selection@)),
                None => listed@.len() == 0,
            },
    {
        match &self.index {
            Some(index) => index.get_categories(selection),
            None => Vec::new(),
        }
    }

    /// The banks that remain under the selection; none while no index is
    /// published.
    pub fn get_banks(&self, selection: &Selection) -> (listed: Vec<&Bank>)
        ensures
            match self.published() {
                Some(index) => listed@.unref() == index.banks().filter(index.bank_test(selection@)),
                None => listed@.len() == 0,
            },
    {
        match &self.index {
            Some(index) => index.get_banks(selection),
            None => Vec::new(),
        }
    }

    /// The modes that remain under the selection; none while no index is
    /// published.
    pub fn get_modes(&self, selection: &Selection) -> (listed: Vec<&Mode>)
        ensures
            match self.published() {
                Some(index) => listed@.unref() == index.modes().filter(index.mode_test(selection@)),
                None => listed@.len() == 0,
            },
    {
        match &self.index {
            Some(index) => index.get_modes(selection),
            None => Vec::new(),
        }
    }

    /// The products that remain under the selection, in the natural order
    /// of their names; none while no index is published.
    pub fn get_products(&self, selection: &Selection) -> (listed: Vec<&Product>)
        ensures
            match self.published() {
                Some(index) => exists|ranking: Seq<usize>|
                    index.arranges_products(
                        index.products().records().filter(index.product_test(selection@)),
                        ranking,
                        listed@.unref(),
                    ),
                None => listed@.len() == 0,
            },
    {
        match &self.index {
            Some(index) => index.get_products(selection),
            None => Vec::new(),
        }
    }

    /// The published index holds what the selection names, or there is no
    /// index yet.
    pub open spec fn knows(&self, selection: &Selection) -> bool {
        self.published() is Some ==> self.published()->0.knows(selection@)
    }

    /// Whether the published index holds what the selection names. While
    /// no index is published, every selection is taken.
    pub fn knows_selection(&self, selection: &Selection) -> (known: bool)
        ensures
            known == self.knows(selection),
    {
        match &self.index {
            Some(index) => index.knows_selection(selection),
            None => true,
        }
    }

    /// The vendors that remain under the selection; none while no index is
    /// published. Every selected id has to belong to something in the
    /// published index: `knows_selection` tells.
    pub fn get_vendors(&self, selection: &Selection) -> (listed: Vec<String>)
        requires
            self.knows(selection),
        ensures
            match self.published() {
                Some(index) => listed@ == index.vendors().filter(index.vendor_test(selection@)),
                None => listed@.len() == 0,
            },
    {
        match &self.index {
            Some(index) => index.get_vendors(selection),
            None => Vec::new(),
        }
    }

    /// One page of the presets that remain under the selection and answer
    /// the query. While no index is published the page is empty and the
    /// total is zero.
    pub fn get_presets(&self, selection: &Selection, query: &str, offset: usize, limit: usize) -> (page:
        PaginatedResult<&Preset>)
        requires
            offset < usize::MAX,
        ensures
            match self.published() {
                Some(index) => {
                    &&& exists|ranking: Seq<usize>|
                        {
                            &&& #[trigger] ranks_naturally(
                                Index::preset_names(index.presets().filter(index.preset_test(selection@, query@))),
                                ranking,
                            )
                            &&& page.results@.unref() == page_of(
                                Index::ranked_presets(
                                    index.presets().filter(index.preset_test(selection@, query@)),
                                    ranking,
                                ),
                                offset as int,
                                limit as int,
                            )
                        }
                    &&& page.total == index.presets().filter(index.preset_test(selection@, query@)).len()
                },
                None => page.results@.len() == 0 && page.total == 0,
            },
            page.results@.len() == page_end(page.total as int, offset as int, limit as int) - page_begin(
                page.total as int,
                offset as int,
            ),
            page.start == offset + 1,
            page.end == offset + page.results@.len(),
    {
        match &self.index {
            Some(index) => index.get_presets(selection, query, offset, limit),
            None => PaginatedResult { results: Vec::new(), total: 0, start: offset + 1, end: offset },
        }
    }
}

} // verus!
