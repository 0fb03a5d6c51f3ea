//! Which source the module loader hands to the runtime: the class library of
//! the script, given up front or received once the runtime asks for it.

use vstd::prelude::*;

verus! {

/// The class library that the loader holds: its text, or a text that is yet
/// to arrive.
pub enum CloudstateModuleLoaderLibrary {
    Sync(String),
    Async,
}

/// What the loader answers a request for a module with.
pub enum LoadAction {
    /// The module's source is this text.
    Respond(String),
    /// The source is the library text that is yet to arrive; the loader stores
    /// it once it has arrived, see [`CloudstateModuleLoader::receive`].
    AwaitLibrary,
}

/// A module loader that serves the script's class library for every module.
pub struct CloudstateModuleLoader {
    lib: CloudstateModuleLoaderLibrary,
}

/// The library text, `None` while it is yet to arrive.
pub open spec fn library_view(lib: CloudstateModuleLoaderLibrary) -> Option<Seq<char>> {
    match lib {
        CloudstateModuleLoaderLibrary::Sync(s) => Some(s@),
        CloudstateModuleLoaderLibrary::Async => None,
    }
}

impl CloudstateModuleLoader {
    /// The library the loader holds.
    pub closed spec fn library(&self) -> Option<Seq<char>> {
        library_view(self.lib)
    }

    /// A loader that holds the library text `lib`.
    pub fn new(lib: String) -> (r: Self)
        ensures
            r.library() == Some(lib@),
    {
        CloudstateModuleLoader { lib: CloudstateModuleLoaderLibrary::Sync(lib) }
    }

    /// A loader whose library text is yet to arrive.
    pub fn new_async() -> (r: Self)
        ensures
            r.library() is None,
    {
        CloudstateModuleLoader { lib: CloudstateModuleLoaderLibrary::Async }
    }

    /// Answers a request for a module. The loader gives its library away: it
    /// holds an empty text afterwards, until a library that was yet to arrive
    /// is received.
    pub fn load(&mut self) -> (action: LoadAction)
        ensures
            final(self).library() == Some(Seq::<char>::empty()),
            match old(self).library() {
                Some(s) => action matches LoadAction::Respond(t) && t@ == s,
                None => action is AwaitLibrary,
            },
    {
        let mut lib = CloudstateModuleLoaderLibrary::Sync(String::new());
        std::mem::swap(&mut lib, &mut self.lib);
        match lib {
            CloudstateModuleLoaderLibrary::Sync(text) => LoadAction::Respond(text),
            CloudstateModuleLoaderLibrary::Async => LoadAction::AwaitLibrary,
        }
    }

    /// Stores the library text that has arrived and hands it back as the
    /// source of the module that waited for it.
    pub fn receive(&mut self, lib: String) -> (source: String)
        ensures
            final(self).library() == Some(lib@),
            source@ == lib@,
    {
        self.lib = CloudstateModuleLoaderLibrary::Sync(lib.clone());
        lib
    }
}

} // verus!
