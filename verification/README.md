# eks

Reading what a Kubernetes cluster reports, and writing it down for a person:
pod listings with the status `kubectl` would show, what pods have booked on each
node, resource quantities, label and field selectors, kubeconfig files, colour,
and the line that says a command is still working.

The library is written in [Verus](https://github.com/verus-lang/verus). Every
function states what it returns, and Verus proves it.

## Layout

- `src/` is the library.
  - `text`, `format`, `time`, `name_map`: characters and numbers as text,
    durations and tables, points in time, a map that lists its names in order.
  - `k8s::quantity`, `k8s::resource`: what a resource quantity says, and which
    resources a cluster added.
  - `k8s::selector`, `k8s::canonical`: the selectors a user types, and why their
    canonical form is one.
  - `k8s::metrics`: what a pod uses, from what its containers use.
  - `k8s::api`: the parts of the API server's objects that are read.
  - `k8s::pods`: what pods have booked (`mod`), what their containers add up to
    (`status`), the table (`row`), its order (`order`), one pod's containers
    (`containers`), events (`events`) and logs (`logs`).
  - `kubeconfig`, `yaml`: merging kubeconfig files, and selecting a context
    without losing anything else.
  - `theme`, `progress`, `startup`: colours, the progress line, and what a run
    decides before it starts.
- `tests/` runs it.
- `app/` is the `eks` command: arguments, files, the network and the terminal.

## Reading the contracts

A `pub open spec fn` says what a value is; the executable function of the same
module is proved to return it. Proof functions whose names begin with `law_`
state what holds across functions.

What is not proved is declared where it is used: a handful of functions of the
standard library and of `serde_yaml_ng`, each with a comment that says what is
taken on trust.
