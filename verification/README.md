# zeroboot

**A node is functional the moment it boots.** It boots, looks at its drives, and
if any of them are nobody's it takes one and puts its writable state there. A
node with nowhere to put that state still boots, on whatever the appliance is
serving.

Taking a drive over is easy; it is a format. Deciding that a drive is *nobody's*
is the part that destroys data when it is wrong. So the deciding is a library of
its own, with every function's behaviour stated in its contract and proved with
Verus, and the reading and writing is a thin program around it.

| verdict | meaning | taken? |
|---|---|---|
| `Mine` | a stormblock slab this node owns | no: already done |
| `AnotherNode` | a slab belonging to someone else | never |
| `Foreign` | a table, a filesystem, anything unrecognised | never |
| `Unreadable` | would not answer | never |
| `Blank` | nothing recognisable | **yes** |

## Layout

- `src/` is the library. It touches no device: what was read comes in as values,
  and what is to be done goes out as values.
  - `survey`: the drives of a machine, the verdicts on them, and what follows.
  - `judge`: the verdict on one drive, one question at a time.
  - `sniff`, `scan`: what the bytes of a drive say.
  - `esp`: partition tables, claims, loader entries, and whether a drive boots.
  - `probe`: what a machine says of its drives, and which slab stormblock names.
  - `claim`: when a node's name is written onto a drive.
  - `boot`: what the initramfs is told, as shell assignments.
  - `bootimage`: what goes into a boot disk, and where.
  - `listing`, `clock`, `text`, `names`, `bytes`: writing things out, and the
    text they are made of.
- `tests/` runs the library on machines and disks made up in memory.
- `app/` is the program: `zeroboot survey`, `zeroboot boot`, `zeroboot claim` and
  `zeroboot boot-image`.

## What is proved

Each public function states what it returns for every input. Beside them, proof
functions whose names begin with `law_` state what holds of the library as a
whole. Among them:

- `Blank` is reached one way only: nothing removable, nothing over the network,
  no partitions, nothing known at either end, and every byte looked at zero. This
  holds even when a drive answers differently from one read to the next.
- What is taken was seen to be blank, and what is booted was named.
- A slab is this node's on positive evidence only, and a claim by another node is
  decisive.
- The look through a drive finds the first byte that is not zero among all that
  it reads, the tail and the samples alike; a drive smaller than a gigabyte is
  read whole. On a larger one it is a sample and not a proof, and that is stated
  too.
- A claim survives being written and read, and is never written over unless it is
  forced.
- A boot disk reads back as bootable, with the slab and the volume it was built
  for.
- Every line that a boot is told is an assignment that the shell reads back whole,
  whatever the drives say.
- The kernel command line names the slab and the volume it was built for, whatever
  is given besides.
- Times are written so that they sort as they passed, up to the year 9999.

A handful of functions of the standard library and one constant of the `gpt`
crate are taken on trust; each stands behind a contract of its own with a comment
that says what is claimed of it.
