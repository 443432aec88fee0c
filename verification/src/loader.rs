//! The program images that the kernel can start, each under a name.
use vstd::prelude::*;

verus! {

/// One program: its name and its image.
pub struct App {
    pub name: Vec<u8>,
    pub image: Vec<u8>,
}

/// The mathematical content of a program.
pub struct AppView {
    pub name: Seq<u8>,
    pub image: Seq<u8>,
}

impl View for App {
    type V = AppView;

    open spec fn view(&self) -> AppView {
        AppView { name: self.name@, image: self.image@ }
    }
}

/// The table of programs, in the order in which they were registered.
pub struct Loader {
    apps: Vec<App>,
}

impl View for Loader {
    type V = Seq<AppView>;

    closed spec fn view(&self) -> Seq<AppView> {
        Seq::new(self.apps@.len(), |i: int| self.apps@[i]@)
    }
}

/// Program `i` is the first one called `name`.
pub open spec fn is_first_named(apps: Seq<AppView>, name: Seq<u8>, i: int) -> bool {
    &&& 0 <= i < apps.len()
    &&& apps[i].name == name
    &&& forall|j: int| 0 <= j < i ==> (#[trigger] apps[j]).name != name
}

/// Some program is called `name`.
pub open spec fn has_app(apps: Seq<AppView>, name: Seq<u8>) -> bool {
    exists|i: int| is_first_named(apps, name, i)
}

/// The image of the first program called `name`.
pub open spec fn image_named(apps: Seq<AppView>, name: Seq<u8>) -> Seq<u8> {
    apps[choose|i: int| is_first_named(apps, name, i)].image
}

/// Whether two byte strings are equal.
pub fn bytes_eq(a: &[u8], b: &[u8]) -> (r: bool)
    ensures
        r == (a@ == b@),
{
    if a.len() != b.len() {
        return false;
    }
    let mut i: usize = 0;
    while i < a.len()
        invariant
            i <= a.len(),
            a@.len() == b@.len(),
            forall|j: int| 0 <= j < i ==> a@[j] == b@[j],
        decreases a.len() - i,
    {
        if a[i] != b[i] {
            return false;
        }
        i += 1;
    }
    assert(a@ =~= b@);
    true
}

impl Loader {
    /// A table without programs.
    pub fn new() -> (r: Loader)
        ensures
            r@ == Seq::<AppView>::empty(),
    {
        let r = Loader { apps: Vec::new() };
        assert(r@ =~= Seq::<AppView>::empty());
        r
    }

    /// Adds a program at the end of the table.
    pub fn register(&mut self, name: Vec<u8>, image: Vec<u8>)
        ensures
            final(self)@ == old(self)@.push(AppView { name: name@, image: image@ }),
    {
        self.apps.push(App { name, image });
        assert(self@ =~= old(self)@.push(AppView { name: name@, image: image@ }));
    }

    /// Number of programs.
    pub fn num_apps(&self) -> (r: usize)
        ensures
            r == self@.len(),
    {
        self.apps.len()
    }

    /// The image of program `app_id`.
    pub fn app_image(&self, app_id: usize) -> (r: &[u8])
        requires
            app_id < self@.len(),
        ensures
            r@ == self@[app_id as int].image,
    {
        self.apps[app_id].image.as_slice()
    }

    /// The image of the first program called `name`, if there is one.
    pub fn app_image_by_name(&self, name: &[u8]) -> (r: Option<&[u8]>)
        ensures
            r is Some <==> has_app(self@, name@),
            r matches Some(image) ==> image@ == image_named(self@, name@),
    {
        let mut i: usize = 0;
        while i < self.apps.len()
            invariant
                i <= self.apps.len(),
                forall|j: int| 0 <= j < i ==> (#[trigger] self@[j]).name != name@,
            decreases self.apps.len() - i,
        {
            if bytes_eq(self.apps[i].name.as_slice(), name) {
                proof {
                    assert(is_first_named(self@, name@, i as int));
                    let c = choose|c: int| is_first_named(self@, name@, c);
                    if c < i {
                        assert(self@[c].name != name@);
                    }
                }
                return Some(self.apps[i].image.as_slice());
            }
            i += 1;
        }
        None
    }
}

/// Number of programs in the table.
pub fn get_num_app(loader: &Loader) -> (r: usize)
    ensures
        r == loader@.len(),
{
    loader.num_apps()
}

/// The image of program `app_id`.
pub fn get_app_data(loader: &Loader, app_id: usize) -> (r: &[u8])
    requires
        app_id < loader@.len(),
    ensures
        r@ == loader@[app_id as int].image,
{
    loader.app_image(app_id)
}

} // verus!
