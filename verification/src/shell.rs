//! The application state the UI shell drives: the template store together
//! with the resolved data location. The shell renders this state, hands
//! committed events to the store's operations, and writes the gateway's
//! payload back to disk after each mutation.

use vstd::prelude::*;

use crate::paths;
use crate::store::TemplateStore;

verus! {

/// The state behind the application window.
pub struct MyApp {
    /// Where the data is saved, shown to the user; nothing when the
    /// platform offers no data directory.
    pub data_dir: Option<std::path::PathBuf>,
    /// The ordered templates, the pending input and the identifier counter.
    pub store: TemplateStore,
}

impl MyApp {
    /// The directory this application keeps its data in, or nothing when
    /// the platform offers no data directory. No directory is created here.
    pub fn get_data_dir() -> Option<std::path::PathBuf> {
        match paths::platform_data_dir() {
            None => None,
            Some(dir) => Some(paths::join_component(&dir, "template_editor")),
        }
    }

    /// The file the templates are persisted in, under the data directory,
    /// or nothing when that directory is unavailable.
    pub fn get_data_file() -> Option<std::path::PathBuf> {
        match Self::get_data_dir() {
            None => None,
            Some(dir) => Some(paths::join_component(&dir, "templates.json")),
        }
    }

    /// A fresh application state over the texts loaded at startup.
    pub fn new(items: Vec<String>) -> (app: MyApp)
        ensures
            app.store.wf(),
            app.store.texts() == items.deep_view(),
            app.store.ids().len() == items@.len(),
            forall|k: int| 0 <= k < items@.len() ==> #[trigger] app.store.ids()[k] == k,
            app.store.next_id_spec() == items@.len(),
            app.store.new_template@ == Seq::<char>::empty(),
    {
        MyApp { data_dir: Self::get_data_dir(), store: TemplateStore::load(items) }
    }

    /// Commits the pending input: appends it as a new template under a
    /// fresh identifier and clears it, signalling the shell that the input
    /// field is to be reset.
    pub fn push_template(&mut self)
        requires
            old(self).store.wf(),
            old(self).store.next_id_spec() < usize::MAX,
        ensures
            final(self).store.wf(),
            final(self).store.texts() == old(self).store.texts().push(
                old(self).store.new_template@,
            ),
            final(self).store.ids() == old(self).store.ids().push(
                old(self).store.next_id_spec(),
            ),
            final(self).store.next_id_spec() == old(self).store.next_id_spec() + 1,
            final(self).store.new_template@ == Seq::<char>::empty(),
            final(self).data_dir == old(self).data_dir,
    {
        self.store.push_template();
    }
}

} // verus!
