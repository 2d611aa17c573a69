//! State of the search screen: the query being typed, the results and the
//! selected one.

use vstd::prelude::*;

verus! {

/// What the search screen is doing.
#[derive(Clone, Copy, Debug, PartialEq, Eq, Structural)]
pub enum AppMode {
    Search,
    Results,
    Playing,
}

/// One search result; its duration in whole seconds.
#[derive(Clone, Debug)]
pub struct SearchResult {
    pub id: String,
    pub title: String,
    pub channel: Option<String>,
    pub duration: Option<u32>,
    pub url: String,
}

/// The search screen's state.
pub struct App {
    pub mode: AppMode,
    pub search_input: String,
    pub results: Vec<SearchResult>,
    pub selected_index: usize,
    pub should_quit: bool,
    pub playing_title: Option<String>,
    pub playing_url: Option<String>,
}

impl App {
    /// An empty search screen.
    pub fn new() -> (r: Self)
        ensures
            r.mode == AppMode::Search,
            r.search_input@.len() == 0,
            r.results@.len() == 0,
            r.selected_index == 0,
            !r.should_quit,
            r.playing_title is None,
            r.playing_url is None,
    {
        App {
            mode: AppMode::Search,
            search_input: String::new(),
            results: Vec::new(),
            selected_index: 0,
            should_quit: false,
            playing_title: None,
            playing_url: None,
        }
    }

    /// Moves the selection down, from the last result to the first.
    pub fn select_next(&mut self)
        requires
            old(self).selected_index < usize::MAX,
        ensures
            final(self).results == old(self).results,
            final(self).mode == old(self).mode,
            final(self).selected_index == if old(self).results@.len() == 0 {
                old(self).selected_index as int
            } else {
                (old(self).selected_index + 1) % (old(self).results@.len() as int)
            },
    {
        if self.results.len() > 0 {
            self.selected_index = (self.selected_index + 1) % self.results.len();
        }
    }

    /// Moves the selection up, from the first result to the last.
    pub fn select_previous(&mut self)
        ensures
            final(self).results == old(self).results,
            final(self).mode == old(self).mode,
            final(self).selected_index == if old(self).results@.len() == 0 {
                old(self).selected_index as int
            } else if old(self).selected_index == 0 {
                old(self).results@.len() - 1
            } else {
                old(self).selected_index - 1
            },
    {
        if self.results.len() > 0 {
            self.selected_index = if self.selected_index == 0 {
                self.results.len() - 1
            } else {
                self.selected_index - 1
            };
        }
    }

    /// The selected result, if the selection is on one.
    pub fn get_selected_result(&self) -> (r: Option<&SearchResult>)
        ensures
            self.selected_index < self.results@.len() ==> r == Some(&self.results@[self.selected_index as int]),
            self.selected_index >= self.results@.len() ==> r is None,
    {
        if self.selected_index < self.results.len() {
            Some(&self.results[self.selected_index])
        } else {
            None
        }
    }
}

} // verus!
