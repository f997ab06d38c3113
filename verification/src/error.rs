use crate::resolution::Resolution;
use crate::type_info::TypeInfo;
use vstd::prelude::*;
use vstd::string::StringExecFns;

verus! {

/// Failure vocabulary of the container. Every operation reports its failures
/// through this type; none aborts the process.
#[derive(Debug, PartialEq)]
pub enum Error {
    /// Could not resolve a service because doing so would recurse into a
    /// construction already in progress.
    DependencyCycle {
        /// The service that was resolved while already resolving itself
        service: TypeInfo,
        /// Full stack of dependency resolutions when the cycle was found
        stack: Vec<Resolution>,
    },
    /// Could not resolve a service because no provider was registered for it.
    NoProvider {
        /// The service that was missing a provider
        service: TypeInfo,
    },
    /// Could not register a provider for a service because the service
    /// already had a provider registered.
    DuplicateRegistration {
        /// The service that was double-registered
        service: TypeInfo,
        /// The provider that was previously registered
        registered_provider: TypeInfo,
        /// The provider that could not be registered
        rejected_provider: TypeInfo,
    },
}

/// The rendering of one resolution step inside a cycle report.
pub open spec fn resolution_text(r: Resolution) -> Seq<char> {
    r.provider.name@ + " (as "@ + r.service.name@ + ")"@
}

/// The rendering of a whole resolution stack, outermost step first.
pub open spec fn stack_text(s: Seq<Resolution>) -> Seq<char>
    decreases s.len(),
{
    if s.len() == 0 {
        Seq::empty()
    } else if s.len() == 1 {
        resolution_text(s[0])
    } else {
        stack_text(s.drop_last()) + " ->\n"@ + resolution_text(s.last())
    }
}

/// The diagnostic text of an error.
pub open spec fn error_text(e: Error) -> Seq<char> {
    match e {
        Error::DependencyCycle { service, stack } => "Could not resolve "@ + service.name@
            + " due to dependency cycle:\n"@ + stack_text(stack@),
        Error::NoProvider { service } => "No provider registered for service "@ + service.name@,
        Error::DuplicateRegistration { service, registered_provider, rejected_provider } =>
            "Could not register "@ + rejected_provider.name@ + " for "@ + service.name@
            + " due to conflict with existing provider: "@ + registered_provider.name@,
    }
}

/// Render a resolution stack as one step per line, outermost first.
pub fn format_type_stack(stack: &Vec<Resolution>) -> (r: String)
    ensures
        r@ == stack_text(stack@),
{
    let mut out: String = String::new();
    let mut i: usize = 0;
    while i < stack.len()
        invariant
            i <= stack@.len(),
            out@ == stack_text(stack@.take(i as int)),
        decreases stack@.len() - i,
    {
        if i > 0 {
            out.append(" ->\n");
        }
        out.append(stack[i].provider.name);
        out.append(" (as ");
        out.append(stack[i].service.name);
        out.append(")");
        proof {
            let pre = stack@.take(i + 1 as int);
            assert(pre.drop_last() =~= stack@.take(i as int));
            assert(pre.last() == stack@[i as int]);
            assert(out@ =~= stack_text(stack@.take(i + 1 as int)));
        }
        i = i + 1;
    }
    proof {
        assert(stack@.take(stack@.len() as int) =~= stack@);
    }
    out
}

impl Error {
    /// The diagnostic message of the error.
    pub fn message(&self) -> (r: String)
        ensures
            r@ == error_text(*self),
    {
        match self {
            Error::DependencyCycle { service, stack } => {
                let mut out = "Could not resolve ".to_owned();
                out.append(service.name);
                out.append(" due to dependency cycle:\n");
                let rendered = format_type_stack(stack);
                out.append(rendered.as_str());
                proof {
                    assert(out@ =~= error_text(*self));
                }
                out
            },
            Error::NoProvider { service } => {
                let mut out = "No provider registered for service ".to_owned();
                out.append(service.name);
                proof {
                    assert(out@ =~= error_text(*self));
                }
                out
            },
            Error::DuplicateRegistration { service, registered_provider, rejected_provider } => {
                let mut out = "Could not register ".to_owned();
                out.append(rejected_provider.name);
                out.append(" for ");
                out.append(service.name);
                out.append(" due to conflict with existing provider: ");
                out.append(registered_provider.name);
                proof {
                    assert(out@ =~= error_text(*self));
                }
                out
            },
        }
    }
}

} // verus!
