# hexput

The logic of the Hexput scripting runtime, verified with Verus, and the daemon around it.

A Backend connects, completes `Init` with the functions it registers, and sends Scripts to execute. A
Script runs in slices under a Resource Budget, may call the Backend's Registered Functions as its
grants allow, and comes to one reply.

## The library

- `ast`, `diagnostics`, `number`, `numeral`, `text`, `table`, `bytes`: what the rest is built of.
- `interpreter`: values, the heap, scopes, the stack machine, and what each of its steps does.
- `check`: the static check of a Script.
- `wire`, `message_pack`, `envelope`, `fields`, `port`: MessagePack values, envelopes, frames, errors
  and settings as they travel.
- `budget`, `enforce`, `exec`: limits, capabilities, and what the Executor decides between slices.
- `rpc`, `ids`, `session`, `script`, `connection`: host calls, Sessions, Direct Executions and the
  decisions of one connection.
- `config`, `cli`: the System Config and the command line.

Laws that relate several functions are public proof functions whose names start with `law_`.

A copy of a string is the same string: it counts once towards the memory ceiling for as long as any
value holds it, in the heap or on the value stack. Strings that were made apart count each in full,
though they be equal.

Numbers are kept by their bits. Arithmetic and the spelling of a number are asked of whoever drives
an execution: the machine stops with a question and goes on with its answer.

## The program

`app` holds what surrounds the library: arguments, files, signals, the log, the clock, channels and
tasks, and floating-point arithmetic. A parser of the language is not part of it; what reads source
text takes one as a parameter.
