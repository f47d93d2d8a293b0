//! The options panel: which options it lists, and how one is edited.

use crate::order::{
    arranged, ascending, law_arranged_keeps_all, law_ordered_texts_stay, sort, text_before, ByText,
};
use crate::parse::lemma_next_line;
use crate::strmap::{has_key, keys_ordered, StrMap};
use crate::text::{
    copy, copy_all, count, has_prefix, holds, is_empty, item, lemma_views_push, lines, lines_of,
    starts_with, trim, trimmed, views, Duplicate,
};
use vstd::prelude::*;

verus! {

#[derive(Debug)]
pub struct TuningState {
    /// The options that can be edited, by name.
    pub option_names: Vec<String>,
    /// Which of them is selected.
    pub selected: usize,
    pub editing: bool,
    pub edit_buf: String,
    /// Options that are never listed.
    pub hidden: Vec<String>,
}

#[verifier::ext_equal]
pub struct TuningStateView {
    pub option_names: Seq<Seq<char>>,
    pub selected: usize,
    pub editing: bool,
    pub edit_buf: Seq<char>,
    pub hidden: Seq<Seq<char>>,
}

impl View for TuningState {
    type V = TuningStateView;

    open spec fn view(&self) -> TuningStateView {
        TuningStateView {
            option_names: views(self.option_names@),
            selected: self.selected,
            editing: self.editing,
            edit_buf: self.edit_buf@,
            hidden: views(self.hidden@),
        }
    }
}

impl Duplicate for TuningState {
    fn duplicate(&self) -> (r: TuningState) {
        TuningState {
            option_names: copy_all(&self.option_names),
            selected: self.selected,
            editing: self.editing,
            edit_buf: copy(self.edit_buf.as_str()),
            hidden: copy_all(&self.hidden),
        }
    }
}

impl Clone for TuningState {
    fn clone(&self) -> (r: TuningState)
        ensures
            r@ == self@,
    {
        self.duplicate()
    }
}

/// The names in a list with one name to a line. Blank lines and lines that
/// start with `#` name nothing.
pub open spec fn names_in(ls: Seq<Seq<char>>) -> Seq<Seq<char>>
    decreases ls.len(),
{
    if ls.len() == 0 {
        Seq::empty()
    } else {
        let name = trimmed(ls.last());
        if name.len() == 0 || has_prefix(name, "#"@) {
            names_in(ls.drop_last())
        } else {
            names_in(ls.drop_last()).push(name)
        }
    }
}

pub fn hidden_names(text: &str) -> (r: Vec<String>)
    ensures
        views(r@) == names_in(lines_of(text@)),
{
    broadcast use lemma_views_push;

    let ls = lines(text);
    let ghost all = views(ls@);
    let mut r: Vec<String> = Vec::new();
    let mut i: usize = 0;
    proof {
        assert(all.take(0) =~= Seq::<Seq<char>>::empty());
        assert(views(r@) =~= Seq::<Seq<char>>::empty());
    }
    while i < count(&ls)
        invariant
            i <= all.len(),
            all == views(ls@),
            views(r@) == names_in(all.take(i as int)),
        decreases all.len() - i,
    {
        proof {
            lemma_next_line(all, i as int);
        }
        let name = trim(item(&ls, i));
        if !is_empty(name.as_str()) && !starts_with(name.as_str(), "#") {
            r.push(name);
        }
        i = i + 1;
    }
    proof {
        assert(all.take(i as int) =~= all);
    }
    r
}

/// The names of the options that are not hidden.
pub open spec fn shown(options: Seq<(Seq<char>, Seq<char>)>, hidden: Seq<Seq<char>>) -> Seq<Seq<char>>
    decreases options.len(),
{
    if options.len() == 0 {
        Seq::empty()
    } else {
        let name = options.last().0;
        if hidden.contains(name) {
            shown(options.drop_last(), hidden)
        } else {
            shown(options.drop_last(), hidden).push(name)
        }
    }
}

pub open spec fn listed(options: Seq<(Seq<char>, Seq<char>)>, hidden: Seq<Seq<char>>) -> Seq<Seq<char>> {
    arranged::<String, ByText>(shown(options, hidden))
}

/// Whether a list holds every option that is not hidden and nothing else, each
/// once, in the order of texts.
pub open spec fn lists(
    names: Seq<Seq<char>>,
    options: Seq<(Seq<char>, Seq<char>)>,
    hidden: Seq<Seq<char>>,
) -> bool {
    &&& ascending(names)
    &&& forall|name: Seq<char>| #[trigger]
        names.contains(name) <==> has_key(options, name) && !hidden.contains(name)
}

fn list_options(options: &StrMap<String>, hidden: &Vec<String>) -> (r: Vec<String>)
    ensures
        views(r@) == listed(options@, views(hidden@)),
        lists(views(r@), options@, views(hidden@)),
{
    broadcast use lemma_views_push;

    let ghost all = options@;
    let mut r: Vec<String> = Vec::new();
    let mut i: usize = 0;
    proof {
        assert(all.take(0) =~= Seq::<(Seq<char>, Seq<char>)>::empty());
        assert(views(r@) =~= Seq::<Seq<char>>::empty());
    }
    while i < options.len()
        invariant
            i <= all.len(),
            all == options@,
            views(r@) == shown(all.take(i as int), views(hidden@)),
        decreases all.len() - i,
    {
        proof {
            assert(all.take(i + 1).drop_last() =~= all.take(i as int));
            assert(all.take(i + 1).last() == all[i as int]);
        }
        let name = options.key_at(i);
        if !holds(hidden, name) {
            r.push(copy(name));
        }
        i = i + 1;
    }
    proof {
        assert(all.take(i as int) =~= all);
        law_options_are_listed_once(options@, views(hidden@));
    }
    sort::<String, ByText>(r)
}

impl TuningStateView {
    pub open spec fn starting(options: Seq<(Seq<char>, Seq<char>)>, hidden: Seq<Seq<char>>) -> TuningStateView {
        TuningStateView {
            option_names: listed(options, hidden),
            selected: 0,
            editing: false,
            edit_buf: Seq::empty(),
            hidden,
        }
    }

    /// The list made anew. A selection past its end moves to the last option.
    pub open spec fn relisted(self, options: Seq<(Seq<char>, Seq<char>)>) -> TuningStateView {
        let names = listed(options, self.hidden);
        TuningStateView {
            option_names: names,
            selected: if self.selected >= names.len() && names.len() > 0 {
                (names.len() - 1) as usize
            } else {
                self.selected
            },
            ..self
        }
    }

    pub open spec fn name(self) -> Option<Seq<char>> {
        if self.selected < self.option_names.len() {
            Some(self.option_names[self.selected as int])
        } else {
            None
        }
    }

    pub open spec fn up(self) -> TuningStateView {
        TuningStateView {
            selected: if self.selected > 0 {
                (self.selected - 1) as usize
            } else {
                0
            },
            ..self
        }
    }

    pub open spec fn down(self) -> TuningStateView {
        TuningStateView {
            selected: if self.selected + 1 < self.option_names.len() {
                (self.selected + 1) as usize
            } else {
                self.selected
            },
            ..self
        }
    }

    pub open spec fn edited(self, value: Seq<char>) -> TuningStateView {
        TuningStateView { editing: true, edit_buf: value, ..self }
    }

    pub open spec fn cancelled(self) -> TuningStateView {
        TuningStateView { editing: false, edit_buf: Seq::empty(), ..self }
    }

    /// What is to be written where an edit is committed: option and value.
    pub open spec fn pending(self) -> Option<(Seq<char>, Seq<char>)> {
        match self.name() {
            Some(name) => Some((name, trimmed(self.edit_buf))),
            None => None,
        }
    }

    /// After a commit, given how the write went. The text stays where it failed.
    pub open spec fn committed(self, written: Result<(), Seq<char>>) -> TuningStateView {
        TuningStateView {
            editing: false,
            edit_buf: if self.name() is Some && written is Ok {
                Seq::empty()
            } else {
                self.edit_buf
            },
            ..self
        }
    }

    pub open spec fn commit_result(self, written: Result<(), Seq<char>>) -> Result<Seq<char>, Seq<char>> {
        if self.name() is None {
            Err("no option selected"@)
        } else {
            match written {
                Ok(_) => Ok(trimmed(self.edit_buf)),
                Err(e) => Err(e),
            }
        }
    }
}

pub open spec fn written_view(r: Result<(), String>) -> Result<(), Seq<char>> {
    match r {
        Ok(_) => Ok(()),
        Err(e) => Err(e@),
    }
}

pub open spec fn result_view(r: Result<String, String>) -> Result<Seq<char>, Seq<char>> {
    match r {
        Ok(v) => Ok(v@),
        Err(e) => Err(e@),
    }
}

pub open spec fn pair_view(r: Option<(String, String)>) -> Option<(Seq<char>, Seq<char>)> {
    match r {
        Some(p) => Some((p.0@, p.1@)),
        None => None,
    }
}

pub open spec fn opt_str(r: Option<&str>) -> Option<Seq<char>> {
    match r {
        Some(s) => Some(s@),
        None => None,
    }
}

impl TuningState {
    /// The panel for a set of options; `hidden` lists those that it leaves out.
    pub fn new(options: &StrMap<String>, hidden: &str) -> (r: TuningState)
        ensures
            r@ == TuningStateView::starting(options@, names_in(lines_of(hidden@))),
            lists(r@.option_names, options@, names_in(lines_of(hidden@))),
    {
        let hidden = hidden_names(hidden);
        TuningState::with_hidden(options, hidden)
    }

    pub fn with_hidden(options: &StrMap<String>, hidden: Vec<String>) -> (r: TuningState)
        ensures
            r@ == TuningStateView::starting(options@, views(hidden@)),
            lists(r@.option_names, options@, views(hidden@)),
    {
        let option_names = list_options(options, &hidden);
        TuningState { option_names, selected: 0, editing: false, edit_buf: String::new(), hidden }
    }

    pub fn refresh_names(&mut self, options: &StrMap<String>)
        ensures
            final(self)@ == old(self)@.relisted(options@),
            lists(final(self)@.option_names, options@, old(self)@.hidden),
    {
        self.option_names = list_options(options, &self.hidden);
        let n = count(&self.option_names);
        if self.selected >= n && n > 0 {
            self.selected = n - 1;
        }
    }

    pub fn selected_name(&self) -> (r: Option<&str>)
        ensures
            opt_str(r) == self@.name(),
    {
        if self.selected < count(&self.option_names) {
            Some(item(&self.option_names, self.selected))
        } else {
            None
        }
    }

    pub fn scroll_up(&mut self)
        ensures
            final(self)@ == old(self)@.up(),
    {
        self.selected = self.selected.saturating_sub(1);
    }

    pub fn scroll_down(&mut self)
        ensures
            final(self)@ == old(self)@.down(),
    {
        let n = count(&self.option_names);
        if n > 0 && self.selected < n - 1 {
            self.selected = self.selected + 1;
        }
    }

    pub fn start_edit(&mut self, current_value: &str)
        ensures
            final(self)@ == old(self)@.edited(current_value@),
    {
        self.editing = true;
        self.edit_buf = copy(current_value);
    }

    pub fn cancel_edit(&mut self)
        ensures
            final(self)@ == old(self)@.cancelled(),
    {
        self.editing = false;
        self.edit_buf = String::new();
    }

    /// What a commit has to write.
    pub fn pending_edit(&self) -> (r: Option<(String, String)>)
        ensures
            pair_view(r) == self@.pending(),
    {
        match self.selected_name() {
            Some(name) => Some((copy(name), trim(self.edit_buf.as_str()))),
            None => None,
        }
    }

    /// Ends an edit, given how the write of its value went. Returns the value,
    /// or why it was not set.
    pub fn commit_edit(&mut self, written: Result<(), String>) -> (r: Result<String, String>)
        ensures
            final(self)@ == old(self)@.committed(written_view(written)),
            result_view(r) == old(self)@.commit_result(written_view(written)),
    {
        self.editing = false;
        if self.selected >= count(&self.option_names) {
            return Err(copy("no option selected"));
        }
        match written {
            Ok(_) => {
                let value = trim(self.edit_buf.as_str());
                self.edit_buf = String::new();
                Ok(value)
            },
            Err(e) => Err(e),
        }
    }
}

// ------------------------------------------------------------------------ laws

/// A hidden option is never listed.
pub proof fn law_hidden_options_are_not_listed(
    options: Seq<(Seq<char>, Seq<char>)>,
    hidden: Seq<Seq<char>>,
    name: Seq<char>,
)
    requires
        hidden.contains(name),
    ensures
        !listed(options, hidden).contains(name),
{
    broadcast use vstd::seq_lib::group_to_multiset_ensures;

    lemma_not_shown(options, hidden, name);
    law_arranged_keeps_all::<String, ByText>(shown(options, hidden));
    if listed(options, hidden).contains(name) {
        assert(listed(options, hidden).to_multiset().count(name) > 0);
        assert(shown(options, hidden).to_multiset().count(name) > 0);
        assert(shown(options, hidden).contains(name));
    }
}

proof fn lemma_not_shown(
    options: Seq<(Seq<char>, Seq<char>)>,
    hidden: Seq<Seq<char>>,
    name: Seq<char>,
)
    requires
        hidden.contains(name),
    ensures
        !shown(options, hidden).contains(name),
    decreases options.len(),
{
    if options.len() > 0 {
        lemma_not_shown(options.drop_last(), hidden, name);
    }
}

/// Relisting keeps a selection on the list, and leaves an edit alone.
pub proof fn law_relisting_keeps_a_selection(
    t: TuningStateView,
    options: Seq<(Seq<char>, Seq<char>)>,
)
    ensures
        listed(options, t.hidden).len() > 0 && listed(options, t.hidden).len() <= usize::MAX
            ==> t.relisted(options).name() is Some,
        t.relisted(options).editing == t.editing,
        t.relisted(options).edit_buf == t.edit_buf,
{
}

/// A refused write keeps the text that was typed; a commit ends the edit either
/// way.
pub proof fn law_a_refused_write_keeps_the_text(t: TuningStateView, why: Seq<char>)
    ensures
        t.committed(Err(why)).edit_buf == t.edit_buf,
        !t.committed(Err(why)).editing,
        !t.committed(Ok(())).editing,
{
}

/// Every option that is not hidden is listed once, by name, and no other.
pub proof fn law_options_are_listed_once(
    options: Seq<(Seq<char>, Seq<char>)>,
    hidden: Seq<Seq<char>>,
)
    requires
        keys_ordered(options),
    ensures
        lists(listed(options, hidden), options, hidden),
{
    lemma_shown_ascending(options, hidden);
    law_ordered_texts_stay(shown(options, hidden));
    assert forall|name: Seq<char>| #[trigger]
        listed(options, hidden).contains(name) <==> has_key(options, name) && !hidden.contains(
            name,
        ) by {
        lemma_shown(options, hidden, name);
        lemma_has_key(options, name);
    }
}

proof fn lemma_shown_ascending(
    options: Seq<(Seq<char>, Seq<char>)>,
    hidden: Seq<Seq<char>>,
)
    requires
        keys_ordered(options),
    ensures
        ascending(shown(options, hidden)),
    decreases options.len(),
{
    if options.len() > 0 {
        let rest = options.drop_last();
        assert(keys_ordered(rest)) by {
            assert forall|i: int, j: int| 0 <= i < j < rest.len() implies text_before(
                #[trigger] rest[i].0,
                #[trigger] rest[j].0,
            ) by {
                assert(rest[i] == options[i] && rest[j] == options[j]);
            }
        }
        lemma_shown_ascending(rest, hidden);
        let a = shown(rest, hidden);
        let b = shown(options, hidden);
        let last = options.len() - 1;
        assert forall|i: int, j: int| 0 <= i < j < b.len() implies text_before(
            #[trigger] b[i],
            #[trigger] b[j],
        ) by {
            assert(b[i] == a[i]);
            if j < a.len() {
                assert(b[j] == a[j]);
            } else {
                lemma_shown(rest, hidden, a[i]);
                let k = choose|k: int| 0 <= k < rest.len() && (#[trigger] rest[k]).0 == a[i];
                assert(rest[k] == options[k]);
                assert(text_before(options[k].0, options[last].0));
            }
        }
    }
}

/// The names shown are the keys that are not hidden.
proof fn lemma_shown(
    options: Seq<(Seq<char>, Seq<char>)>,
    hidden: Seq<Seq<char>>,
    name: Seq<char>,
)
    ensures
        shown(options, hidden).contains(name) <==> !hidden.contains(name) && exists|k: int|
            0 <= k < options.len() && (#[trigger] options[k]).0 == name,
    decreases options.len(),
{
    if options.len() > 0 {
        let rest = options.drop_last();
        let last = options.len() - 1;
        let a = shown(rest, hidden);
        let b = shown(options, hidden);
        lemma_shown(rest, hidden, name);
        if b.contains(name) {
            let i = choose|i: int| 0 <= i < b.len() && b[i] == name;
            if i < a.len() {
                assert(a[i] == name);
                let k = choose|k: int| 0 <= k < rest.len() && (#[trigger] rest[k]).0 == name;
                assert(options[k].0 == name);
            } else {
                assert(options[last].0 == name);
            }
        }
        if !hidden.contains(name) && exists|k: int|
            0 <= k < options.len() && (#[trigger] options[k]).0 == name {
            let k = choose|k: int| 0 <= k < options.len() && (#[trigger] options[k]).0 == name;
            if k < last {
                assert(rest[k].0 == name);
                let i = choose|i: int| 0 <= i < a.len() && a[i] == name;
                assert(b[i] == name);
            } else {
                assert(b[b.len() - 1] == name);
            }
        }
    }
}

proof fn lemma_has_key<V>(s: Seq<(Seq<char>, V)>, key: Seq<char>)
    ensures
        has_key(s, key) <==> exists|k: int| 0 <= k < s.len() && (#[trigger] s[k]).0 == key,
    decreases s.len(),
{
    if s.len() > 0 {
        let t = s.skip(1);
        lemma_has_key(t, key);
        if s[0].0 != key {
            if has_key(t, key) {
                let k = choose|k: int| 0 <= k < t.len() && (#[trigger] t[k]).0 == key;
                assert(s[k + 1].0 == key);
            }
            if exists|k: int| 0 <= k < s.len() && (#[trigger] s[k]).0 == key {
                let k = choose|k: int| 0 <= k < s.len() && (#[trigger] s[k]).0 == key;
                assert(t[k - 1].0 == key);
            }
        }
    }
}

} // verus!
