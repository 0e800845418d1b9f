//! The sink that a run writes to: the process's standard output, or a buffer
//! in memory that a caller can read back.
use std::io::Write;
use vstd::prelude::*;

verus! {

#[verifier::external_type_specification]
#[verifier::external_body]
pub struct ExStdout(std::io::Stdout);

#[verifier::external_type_specification]
#[verifier::external_body]
pub struct ExIoError(std::io::Error);

#[derive(Debug)]
pub enum Writable {
    Out(std::io::Stdout),
    Vec(Vec<u8>),
}

/// `std::io::Write::write` on `Stdout`. What the terminal accepts is decided
/// outside the program, so nothing is claimed of the result.
#[verifier::external_body]
fn stdout_write(out: &mut std::io::Stdout, buf: &[u8]) -> (r: Result<usize, std::io::Error>) {
    out.write(buf)
}

/// `std::io::Write::write_all` on `Stdout`. Nothing is claimed of the result.
#[verifier::external_body]
fn stdout_write_all(out: &mut std::io::Stdout, buf: &[u8]) -> (r: Result<(), std::io::Error>) {
    out.write_all(buf)
}

/// `std::io::Write::flush` on `Stdout`. Nothing is claimed of the result.
#[verifier::external_body]
fn stdout_flush(out: &mut std::io::Stdout) -> (r: Result<(), std::io::Error>) {
    out.flush()
}

impl Writable {
    /// The bytes that a buffer holds; empty for the standard output, of which
    /// nothing can be read back.
    pub open spec fn held(self) -> Seq<u8> {
        match self {
            Writable::Vec(v) => v@,
            Writable::Out(_) => Seq::empty(),
        }
    }

    /// `self` is what `before` becomes once `bytes` have been written to it.
    pub open spec fn follows(self, before: Writable, bytes: Seq<u8>) -> bool {
        match before {
            Writable::Vec(_) => self is Vec && self.held() == before.held() + bytes,
            Writable::Out(_) => self is Out,
        }
    }
}

impl Writable {
    /// Writes the whole of a text, in UTF-8. A buffer always takes it; the
    /// standard output may fail.
    pub fn write_text(&mut self, text: &str) -> (r: Result<(), std::io::Error>)
        ensures
            r is Ok ==> final(self).follows(*old(self), vstd::utf8::encode_utf8(text@)),
            r is Err ==> *final(self) is Out,
            *old(self) is Vec ==> r is Ok,
    {
        match self {
            Writable::Out(stdout) => stdout_write_all(stdout, text.as_bytes()),
            Writable::Vec(vec) => {
                let ghost before = vec@;
                vec.extend_from_slice(text.as_bytes());
                assert(vec@ =~= before + vstd::utf8::encode_utf8(text@));
                Ok(())
            },
        }
    }
}

/// Writing one thing and then another is writing the two in a row.
pub proof fn lemma_follows_twice(
    first: Writable,
    second: Writable,
    third: Writable,
    a: Seq<u8>,
    b: Seq<u8>,
)
    requires
        second.follows(first, a),
        third.follows(second, b),
    ensures
        third.follows(first, a + b),
{
    if first is Vec {
        assert(third.held() =~= first.held() + (a + b));
    }
}

impl Write for Writable {
    fn write(&mut self, buf: &[u8]) -> (r: Result<usize, std::io::Error>)
        ensures
            final(self).follows(*old(self), buf@),
            *old(self) is Vec ==> (r matches Ok(n) && n == buf@.len()),
    {
        match self {
            Writable::Out(stdout) => stdout_write(stdout, buf),
            Writable::Vec(vec) => {
                let ghost before = vec@;
                vec.extend_from_slice(buf);
                assert(vec@ =~= before + buf@);
                Ok(buf.len())
            },
        }
    }

    fn flush(&mut self) -> (r: Result<(), std::io::Error>)
        ensures
            final(self).follows(*old(self), Seq::empty()),
            *old(self) is Vec ==> r is Ok,
    {
        match self {
            Writable::Out(stdout) => stdout_flush(stdout),
            Writable::Vec(_vec) => Ok(()),
        }
    }
}

} // verus!
