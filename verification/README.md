# crenel

Static file serving whose decisions are verified with Verus.

- `src/` is the library. It decides and computes: classification of request targets,
  containment of relative paths, sidecar negotiation, conditional and range semantics, header
  values, boot checks of docroots, and the exchange that answers a request, step by step. Every
  function has a contract; proof functions named `law_...` state what holds across functions.
- `app/` is `crenel-serve`, a standalone server on Pingora. It makes the system calls and the
  network writes that the library asks for.
- `tests/` drives the library over a file tree held in memory.

What the library takes on trust is marked `external_body` or `assume_specification`: reading and
writing of HTTP dates by `httpdate`, the file type of a mode by `rustix`, and four functions of
the standard library on strings and paths.
