# bean_context

A container of beans: services that are registered under a type and a name, may refer to one another
before they exist, and are handed out once all of them have been constructed.

- `src/` is the verified library.
  - `metadata`: what identifies a bean, and what it declares to depend on
  - `bean_ref`: the cells that beans are put into, and the references to them
  - `lifecycle`: what a type has to offer in order to be a bean, and the functions that a bean
    brings along
  - `wrapper`: one registered bean, its status and its functions
  - `context`: the registry, the context that is being built, and the finished context
  - `depend`: the tree of dependencies
  - `initialize`: the initialization of the beans, each after those that it depends on
  - `event`: events, listeners and executors
  - `erased`: values whose type is hidden
  - `error`: the errors and their texts
  - `cells`: the cells of `once_cell` and `crossbeam` that hold the helper data of a bean
  - `laws`: what holds of the container as a whole
- `app/` puts the container behind a lock, so that beans can reach it while they are being built, and
  adds the beans and listeners that are awaited.
- `tests/` runs the library.

## Cells and references

A bean lives in a `OnceCell` that is shared by everyone who refers to it. Making a cell gives a
`Handle`, which keeps the cell, and a `BeanWriter`, which is used up when the bean is put into the cell.
The contracts speak of a cell through relations: `paired` (made together), `filled` (this bean was put
into it), `refers` (this reference was made from it), `opens` and `bean_in` (following the reference
gives this cell, which holds this bean). Each of them says that a call was made and what came of it, so
what they say stays true. Nothing is ever said of a cell being empty, as that may change.

Hidden types are handled in the same way: `keeps` says which value an `Erased` was made of, and `boxes`
which error a box was made of.

## Functions of beans

A bean is registered with two functions, which call its own `init_self` and `clean_self`. They are
called on record: a call needs a `CallLog`, and a contract says by which calls the log has grown. So it
says which functions were called, in which order, and each of them how often.
