use vstd::prelude::*;

verus! {

/// A value bound to the path of the file that holds it.
///
/// The path is fixed when the container is made; the value can be read and
/// changed freely. Writing the value back is the business of whoever owns
/// the container: [`JsonStruct::release`] hands out what is to be written.
pub struct JsonStruct<T> {
    json_path: String,
    value: T,
}

impl<T> JsonStruct<T> {
    /// The path the value is bound to.
    pub closed spec fn path_view(&self) -> Seq<char> {
        self.json_path@
    }

    /// The value held.
    pub closed spec fn value_view(&self) -> T {
        self.value
    }

    /// Binds `obj` to `path`, without touching the file system.
    pub fn new(path: &str, obj: T) -> (r: JsonStruct<T>)
        ensures
            r.path_view() == path@,
            r.value_view() == obj,
    {
        JsonStruct { json_path: path.to_string(), value: obj }
    }

    /// The path the value is bound to.
    pub fn path(&self) -> (r: &str)
        ensures
            r@ == self.path_view(),
    {
        self.json_path.as_str()
    }

    /// The value held.
    pub fn get(&self) -> (r: &T)
        ensures
            *r == self.value_view(),
    {
        &self.value
    }

    /// The value held, for changing in place; the path stays as it is.
    pub fn get_mut(&mut self) -> (r: &mut T)
        ensures
            *r == old(self).value_view(),
            final(self).value_view() == *final(r),
            final(self).path_view() == old(self).path_view(),
    {
        &mut self.value
    }

    /// Replaces the value held; the path stays as it is.
    pub fn set(&mut self, obj: T)
        ensures
            final(self).value_view() == obj,
            final(self).path_view() == old(self).path_view(),
    {
        self.value = obj;
    }

    /// Ends the binding and hands out what is to be written back: the path
    /// and the value as it stands now, whatever was done to it before.
    pub fn release(self) -> (r: (String, T))
        ensures
            r.0@ == self.path_view(),
            r.1 == self.value_view(),
    {
        (self.json_path, self.value)
    }
}

} // verus!
