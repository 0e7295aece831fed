use vstd::prelude::*;

verus! {

use crate::ansi::PaintColour;
use crate::ansi::paint;
use crate::ansi::painted;
use crate::select::SelectionSet;
use vstd::string::StringExecFns;

/// The external invocation to make: the program, its argument vector, and
/// the one-line rendering shown to the operator.
pub struct DeployCommand {
    pub program: String,
    pub args: Vec<String>,
    pub display: String,
}

/// One `-c <path>` pair per chosen file, in order.
pub open spec fn inclusion_args(files: Seq<Seq<char>>) -> Seq<Seq<char>>
    decreases files.len(),
{
    if files.len() == 0 {
        Seq::empty()
    } else {
        seq!["-c"@, files[0]] + inclusion_args(files.drop_first())
    }
}

/// The whole argument vector: the subcommand words, the inclusion pairs,
/// the stack name, and the two fixed flags.
pub open spec fn deploy_args(stack: Seq<char>, files: Seq<Seq<char>>) -> Seq<Seq<char>> {
    seq!["stack"@, "deploy"@] + inclusion_args(files) + seq![
        stack,
        "--detach=false"@,
        "--with-registry-auth"@,
    ]
}

/// The inclusion pairs as one text, joined with single spaces.
pub open spec fn joined_inclusions(files: Seq<Seq<char>>) -> Seq<char>
    decreases files.len(),
{
    if files.len() == 0 {
        Seq::empty()
    } else if files.len() == 1 {
        "-c "@ + files[0]
    } else {
        "-c "@ + files[0] + " "@ + joined_inclusions(files.drop_first())
    }
}

/// The one-line rendering of the command.
pub open spec fn display_of(stack: Seq<char>, files: Seq<Seq<char>>) -> Seq<char> {
    "docker stack deploy "@ + joined_inclusions(files) + " "@ + stack
        + " --detach=false --with-registry-auth"@
}

proof fn lemma_inclusion_snoc(files: Seq<Seq<char>>, f: Seq<char>)
    ensures
        inclusion_args(files.push(f)) == inclusion_args(files) + seq!["-c"@, f],
    decreases files.len(),
{
    if files.len() == 0 {
        let p = files.push(f);
        assert(p.drop_first() =~= Seq::<Seq<char>>::empty());
        assert(p[0] == f);
        assert(inclusion_args(p.drop_first()) =~= Seq::<Seq<char>>::empty());
        assert(inclusion_args(files) =~= Seq::<Seq<char>>::empty());
        assert(inclusion_args(files.push(f)) =~= inclusion_args(files) + seq!["-c"@, f]);
    } else {
        assert(files.push(f).drop_first() =~= files.drop_first().push(f));
        assert(files.push(f)[0] == files[0]);
        lemma_inclusion_snoc(files.drop_first(), f);
        assert(inclusion_args(files.push(f)) =~= inclusion_args(files) + seq!["-c"@, f]);
    }
}

proof fn lemma_joined_snoc(files: Seq<Seq<char>>, f: Seq<char>)
    ensures
        joined_inclusions(files.push(f)) == if files.len() == 0 {
            "-c "@ + f
        } else {
            joined_inclusions(files) + " "@ + "-c "@ + f
        },
    decreases files.len(),
{
    let p = files.push(f);
    if files.len() == 0 {
        assert(p.len() == 1);
        assert(p[0] == f);
    } else if files.len() == 1 {
        assert(p.drop_first() =~= files.drop_first().push(f));
        assert(files.drop_first() =~= Seq::<Seq<char>>::empty());
        assert(p.drop_first().len() == 1);
        assert(p.drop_first()[0] == f);
        assert(joined_inclusions(p.drop_first()) == "-c "@ + f);
        assert(p[0] == files[0]);
        assert(joined_inclusions(p) =~= joined_inclusions(files) + " "@ + "-c "@ + f);
    } else {
        assert(p.drop_first() =~= files.drop_first().push(f));
        assert(p[0] == files[0]);
        lemma_joined_snoc(files.drop_first(), f);
        assert(joined_inclusions(p) =~= joined_inclusions(files) + " "@ + "-c "@ + f);
    }
}

/// Builds the external command for a stack name and a selection: the
/// `stack deploy` subcommand, one `-c <path>` pair per chosen file, the
/// stack name, and the flags disabling detached mode and passing the
/// registry authentication through; and the line rendering all of it.
pub fn build_deploy_command(stack_name: &str, selection: &SelectionSet) -> (c: DeployCommand)
    ensures
        c.program@ == "docker"@,
        c.args.deep_view() == deploy_args(stack_name@, selection.path_seq()),
        c.display@ == display_of(stack_name@, selection.path_seq()),
{
    let files = &selection.paths;
    let ghost d = selection.path_seq();
    let mut args: Vec<String> = Vec::new();
    args.push("stack".to_owned());
    args.push("deploy".to_owned());
    let mut i: usize = 0;
    proof {
        assert(inclusion_args(d.take(0)) =~= Seq::<Seq<char>>::empty()) by {
            assert(d.take(0) =~= Seq::<Seq<char>>::empty());
        }
        assert(args.deep_view() =~= seq!["stack"@, "deploy"@] + inclusion_args(d.take(0)));
    }
    while i < files.len()
        invariant
            i <= files.len(),
            d == selection.path_seq(),
            d == files.deep_view(),
            d.len() == files@.len(),
            args.deep_view() == seq!["stack"@, "deploy"@] + inclusion_args(d.take(i as int)),
        decreases files.len() - i,
    {
        let ghost before = args.deep_view();
        args.push("-c".to_owned());
        args.push(files[i].clone());
        proof {
            assert(d[i as int] == files@[i as int]@);
            assert(args.deep_view() =~= before + seq!["-c"@, d[i as int]]);
            assert(d.take(i + 1) =~= d.take(i as int).push(d[i as int]));
            lemma_inclusion_snoc(d.take(i as int), d[i as int]);
            assert(args.deep_view() =~= seq!["stack"@, "deploy"@] + inclusion_args(d.take(i + 1)));
        }
        i = i + 1;
    }
    args.push(stack_name.to_owned());
    args.push("--detach=false".to_owned());
    args.push("--with-registry-auth".to_owned());
    proof {
        assert(d.take(files@.len() as int) =~= d);
        assert(args.deep_view() =~= deploy_args(stack_name@, d));
    }
    let mut joined: String = String::new();
    let mut k: usize = 0;
    proof {
        assert(joined@ =~= joined_inclusions(d.take(0))) by {
            assert(d.take(0) =~= Seq::<Seq<char>>::empty());
        }
    }
    while k < files.len()
        invariant
            k <= files.len(),
            d == selection.path_seq(),
            d == files.deep_view(),
            d.len() == files@.len(),
            joined@ == joined_inclusions(d.take(k as int)),
        decreases files.len() - k,
    {
        if k > 0 {
            joined.append(" ");
        }
        joined.append("-c ");
        joined.append(files[k].as_str());
        proof {
            assert(d[k as int] == files@[k as int]@);
            assert(d.take(k + 1) =~= d.take(k as int).push(d[k as int]));
            lemma_joined_snoc(d.take(k as int), d[k as int]);
            assert(joined@ =~= joined_inclusions(d.take(k + 1)));
        }
        k = k + 1;
    }
    proof {
        assert(d.take(files@.len() as int) =~= d);
    }
    let mut display: String = "docker stack deploy ".to_owned();
    display.append(joined.as_str());
    display.append(" ");
    display.append(stack_name);
    display.append(" --detach=false --with-registry-auth");
    proof {
        assert(display@ =~= display_of(stack_name@, d));
    }
    DeployCommand { program: "docker".to_owned(), args, display }
}

/// The line announcing the command before it runs, with the command text
/// painted blue.
pub fn command_announcement(display: &str) -> (r: String)
    ensures
        r@ == "Running command: "@ + painted(PaintColour::Blue, display@),
{
    let mut r: String = "Running command: ".to_owned();
    let coloured = paint(PaintColour::Blue, display);
    r.append(coloured.as_str());
    r
}

/// The message reported once the external command has finished: a fixed
/// success line on a zero exit status, else a failure prefix followed by
/// the captured standard error.
pub fn deploy_report(success: bool, stderr: &str) -> (r: String)
    ensures
        success ==> r@ == "Docker stack deployed successfully."@,
        !success ==> r@ == "Failed to deploy stack: "@ + stderr@,
{
    if success {
        "Docker stack deployed successfully.".to_owned()
    } else {
        let mut r: String = "Failed to deploy stack: ".to_owned();
        r.append(stderr);
        r
    }
}

/// Whether position `p` of the argument vector is the flag of the
/// inclusion pair for the file numbered `k`.
pub open spec fn inclusion_slot(p: int, k: int) -> bool {
    p == 2 + 2 * k
}

proof fn lemma_inclusion_len(files: Seq<Seq<char>>)
    ensures
        inclusion_args(files).len() == 2 * files.len(),
    decreases files.len(),
{
    if files.len() > 0 {
        lemma_inclusion_len(files.drop_first());
    }
}

proof fn lemma_inclusion_index(files: Seq<Seq<char>>, k: int)
    requires
        0 <= k < files.len(),
    ensures
        inclusion_args(files).len() == 2 * files.len(),
        inclusion_args(files)[2 * k] == "-c"@,
        inclusion_args(files)[2 * k + 1] == files[k],
    decreases files.len(),
{
    lemma_inclusion_len(files);
    let a = inclusion_args(files);
    let rest = inclusion_args(files.drop_first());
    assert(a == seq!["-c"@, files[0]] + rest);
    if k > 0 {
        lemma_inclusion_index(files.drop_first(), k - 1);
        assert(rest[2 * (k - 1)] == "-c"@);
        assert(rest[2 * (k - 1) + 1] == files.drop_first()[k - 1]);
        assert(a[2 * k] == rest[2 * k - 2]);
        assert(2 * (k - 1) == 2 * k - 2);
        assert(a[2 * k + 1] == rest[2 * k - 1]);
        assert(2 * (k - 1) + 1 == 2 * k - 1);
        assert(files.drop_first()[k - 1] == files[k]);
    }
}

/// The shape of the argument vector: after the two subcommand words there
/// stands exactly one `-c <path>` pair per chosen file, in order; then the
/// stack name as a single argument; then each fixed flag, and — as long as
/// neither the stack name nor a chosen path spells a flag itself — the
/// flags and the `-c` markers occur nowhere else.
pub proof fn lemma_command_shape(stack: Seq<char>, files: Seq<Seq<char>>)
    requires
        stack != "-c"@,
        stack != "--detach=false"@,
        stack != "--with-registry-auth"@,
        forall|i: int|
            0 <= i < files.len() ==> #[trigger] files[i] != "-c"@ && files[i] != "--detach=false"@
                && files[i] != "--with-registry-auth"@,
    ensures
        deploy_args(stack, files).len() == 5 + 2 * files.len(),
        forall|k: int|
            0 <= k < files.len() && #[trigger] inclusion_slot(0, k) ==> deploy_args(stack, files)[2
                + 2 * k] == "-c"@ && deploy_args(stack, files)[3 + 2 * k] == files[k],
        deploy_args(stack, files)[2 + 2 * files.len() as int] == stack,
        deploy_args(stack, files)[3 + 2 * files.len() as int] == "--detach=false"@,
        deploy_args(stack, files)[4 + 2 * files.len() as int] == "--with-registry-auth"@,
        forall|p: int|
            0 <= p < deploy_args(stack, files).len() ==> ((#[trigger] deploy_args(stack, files)[p]
                == "--detach=false"@) <==> p == 3 + 2 * files.len()),
        forall|p: int|
            0 <= p < deploy_args(stack, files).len() ==> ((#[trigger] deploy_args(stack, files)[p]
                == "--with-registry-auth"@) <==> p == 4 + 2 * files.len()),
        forall|p: int|
            0 <= p < deploy_args(stack, files).len() ==> ((#[trigger] deploy_args(stack, files)[p]
                == "-c"@) <==> (exists|k: int|
                0 <= k < files.len() && #[trigger] inclusion_slot(p, k))),
{
    lemma_inclusion_len(files);
    let a = deploy_args(stack, files);
    let n = files.len() as int;
    reveal_strlit("stack");
    reveal_strlit("deploy");
    reveal_strlit("-c");
    reveal_strlit("--detach=false");
    reveal_strlit("--with-registry-auth");
    assert("stack"@.len() == 5);
    assert("deploy"@.len() == 6);
    assert("-c"@.len() == 2);
    assert("--detach=false"@.len() == 14);
    assert("--with-registry-auth"@.len() == 20);
    assert(a.len() == 5 + 2 * n);
    assert forall|k: int| 0 <= k < n && #[trigger] inclusion_slot(0, k) implies a[2 + 2 * k]
        == "-c"@ && a[3 + 2 * k] == files[k] by {
        lemma_inclusion_index(files, k);
        assert(a[2 + 2 * k] == inclusion_args(files)[2 * k]);
        assert(a[3 + 2 * k] == inclusion_args(files)[2 * k + 1]);
    }
    assert forall|p: int| 0 <= p < a.len() implies ((#[trigger] a[p] == "--detach=false"@) <==> p
        == 3 + 2 * n) by {
        if p != 3 + 2 * n {
            lemma_position_kind(stack, files, p);
        }
    }
    assert forall|p: int| 0 <= p < a.len() implies ((#[trigger] a[p] == "--with-registry-auth"@)
        <==> p == 4 + 2 * n) by {
        if p != 4 + 2 * n {
            lemma_position_kind(stack, files, p);
        }
    }
    assert forall|p: int| 0 <= p < a.len() implies ((#[trigger] a[p] == "-c"@) <==> (exists|k: int|
        0 <= k < n && #[trigger] inclusion_slot(p, k))) by {
        lemma_position_kind(stack, files, p);
        if a[p] == "-c"@ {
            assert(2 <= p < 2 + 2 * n && (p % 2) == 0);
            let k = (p - 2) / 2;
            assert(p == 2 + 2 * k && 0 <= k < n);
            assert(inclusion_slot(p, k));
        } else {
            if exists|k: int| 0 <= k < n && #[trigger] inclusion_slot(p, k) {
                let k = choose|k: int| 0 <= k < n && #[trigger] inclusion_slot(p, k);
                lemma_inclusion_index(files, k);
                assert(a[2 + 2 * k] == inclusion_args(files)[2 * k]);
                assert(false);
            }
        }
    }
}

/// What stands at each position of the argument vector.
proof fn lemma_position_kind(stack: Seq<char>, files: Seq<Seq<char>>, p: int)
    requires
        stack != "-c"@,
        stack != "--detach=false"@,
        stack != "--with-registry-auth"@,
        forall|i: int|
            0 <= i < files.len() ==> #[trigger] files[i] != "-c"@ && files[i] != "--detach=false"@
                && files[i] != "--with-registry-auth"@,
        0 <= p < deploy_args(stack, files).len(),
    ensures
        deploy_args(stack, files).len() == 5 + 2 * files.len(),
        p == 0 ==> deploy_args(stack, files)[p] == "stack"@,
        p == 1 ==> deploy_args(stack, files)[p] == "deploy"@,
        2 <= p < 2 + 2 * files.len() && (p % 2) == 0 ==> deploy_args(stack, files)[p] == "-c"@,
        2 <= p < 2 + 2 * files.len() && (p % 2) == 1 ==> deploy_args(stack, files)[p] == files[(p
            - 3) / 2] && deploy_args(stack, files)[p] != "-c"@ && deploy_args(stack, files)[p]
            != "--detach=false"@ && deploy_args(stack, files)[p] != "--with-registry-auth"@,
        p == 2 + 2 * files.len() ==> deploy_args(stack, files)[p] == stack,
        p == 3 + 2 * files.len() ==> deploy_args(stack, files)[p] == "--detach=false"@,
        p == 4 + 2 * files.len() ==> deploy_args(stack, files)[p] == "--with-registry-auth"@,
        "stack"@ != "-c"@ && "stack"@ != "--detach=false"@ && "stack"@ != "--with-registry-auth"@,
        "deploy"@ != "-c"@ && "deploy"@ != "--detach=false"@ && "deploy"@
            != "--with-registry-auth"@,
        "-c"@ != "--detach=false"@ && "-c"@ != "--with-registry-auth"@,
        "--detach=false"@ != "--with-registry-auth"@,
{
    lemma_inclusion_len(files);
    let a = deploy_args(stack, files);
    let n = files.len() as int;
    reveal_strlit("stack");
    reveal_strlit("deploy");
    reveal_strlit("-c");
    reveal_strlit("--detach=false");
    reveal_strlit("--with-registry-auth");
    assert("stack"@.len() == 5);
    assert("deploy"@.len() == 6);
    assert("-c"@.len() == 2);
    assert("--detach=false"@.len() == 14);
    assert("--with-registry-auth"@.len() == 20);
    if 2 <= p < 2 + 2 * n {
        let q = p - 2;
        if q % 2 == 0 {
            let k = q / 2;
            lemma_inclusion_index(files, k);
            assert(a[2 + 2 * k] == inclusion_args(files)[2 * k]);
        } else {
            let k = (q - 1) / 2;
            lemma_inclusion_index(files, k);
            assert(q == 2 * k + 1);
            assert(a[p] == inclusion_args(files)[2 * k + 1]);
            assert((p - 3) / 2 == k);
        }
    }
}

} // verus!
