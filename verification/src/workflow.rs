//! Build targets and the GitHub Actions workflow that compiles a capsule.
use vstd::prelude::*;

verus! {

/// A supported build target.
#[derive(Clone, Copy, Debug, PartialEq, Eq, Structural)]
pub enum Target {
    WindowsMsvc,
    MacosAppleSilicon,
    LinuxGnu,
}

pub const RUNNER_WINDOWS: &'static str = "windows-latest";
pub const RUNNER_MACOS: &'static str = "macos-14";
pub const RUNNER_LINUX: &'static str = "ubuntu-latest";

pub const TRIPLE_WINDOWS: &'static str = "x86_64-pc-windows-msvc";
pub const TRIPLE_MACOS: &'static str = "aarch64-apple-darwin";
pub const TRIPLE_LINUX: &'static str = "x86_64-unknown-linux-gnu";

/// The runner image a target builds on.
pub open spec fn spec_runs_on(t: Target) -> Seq<char> {
    match t {
        Target::WindowsMsvc => RUNNER_WINDOWS@,
        Target::MacosAppleSilicon => RUNNER_MACOS@,
        Target::LinuxGnu => RUNNER_LINUX@,
    }
}

/// The Rust target triple of a target.
pub open spec fn spec_rust_target(t: Target) -> Seq<char> {
    match t {
        Target::WindowsMsvc => TRIPLE_WINDOWS@,
        Target::MacosAppleSilicon => TRIPLE_MACOS@,
        Target::LinuxGnu => TRIPLE_LINUX@,
    }
}

impl Target {
    pub fn runs_on(self) -> (r: &'static str)
        ensures
            r@ == spec_runs_on(self),
    {
        match self {
            Target::WindowsMsvc => RUNNER_WINDOWS,
            Target::MacosAppleSilicon => RUNNER_MACOS,
            Target::LinuxGnu => RUNNER_LINUX,
        }
    }

    pub fn rust_target(self) -> (r: &'static str)
        ensures
            r@ == spec_rust_target(self),
    {
        match self {
            Target::WindowsMsvc => TRIPLE_WINDOWS,
            Target::MacosAppleSilicon => TRIPLE_MACOS,
            Target::LinuxGnu => TRIPLE_LINUX,
        }
    }
}

} // verus!

verus! {

pub const WF_0: &'static str = "name: nyedarch-capsule-build\non:\n  workflow_dispatch: {}\npermissions:\n  contents: read\njobs:\n  build:\n    strategy:\n      fail-fast: false\n      matrix:\n        include:\n";
pub const WF_1: &'static str = "    runs-on: ${{ matrix.os }}\n    steps:\n      - uses: actions/checkout@v4\n      - name: Install Rust (latest stable, chosen automatically)\n        uses: dtolnay/rust-toolchain@stable\n        with:\n          targets: ${{ matrix.target }}\n\n      # The capsule source is not stored in this repository in the clear. Only\n      # this unlocker is, and it holds no secret: the key comes from a\n      # repository secret and exists only in this runner's memory.\n      - name: Build the unlocker\n        working-directory: ";
pub const WF_2: &'static str = "/unlock\n        run: cargo build --release\n\n      - name: Decrypt the capsule source\n        working-directory: ";
pub const WF_3: &'static str = "\n        env:\n          NYEDARCH_SOURCE_KEY: ${{ secrets.NYEDARCH_SOURCE_KEY }}\n        shell: bash\n        run: |\n          if [ -z \"$NYEDARCH_SOURCE_KEY\" ]; then\n            echo \"The NYEDARCH_SOURCE_KEY repository secret is missing.\" >&2\n            echo \"Without it the capsule source cannot be decrypted.\" >&2\n            exit 1\n          fi\n          ./unlock/target/release/nyedarch-unlock capsule.sealed .\n\n      - name: Build capsule (release, hardened profile)\n        working-directory: ";
pub const WF_4: &'static str = "\n        run: cargo build --release --target ${{ matrix.target }}\n\n      - name: Stage capsule as .nyarch\n        shell: bash\n        working-directory: ";
pub const WF_5: &'static str = "\n        run: |\n          mkdir -p ../out\n          bin=\"target/${{ matrix.target }}/release/nyedarch-capsule\"\n          if [ -f \"$bin.exe\" ]; then bin=\"$bin.exe\"; fi\n          # One extension on every OS (spec: NYEDArch capsule identity).\n          out=\"../out/nyedarch-${{ github.run_id }}-${{ matrix.target }}.nyarch\"\n          cp \"$bin\" \"$out\"\n          # Executable bit. Preserved by upload-artifact v4 on Unix runners;\n          # Windows has no execute bit, so this is a no-op there by design.\n          chmod +x \"$out\" || true\n          ls -l \"$out\"\n\n      # The decrypted source must not outlive the build step, so that a later\n      # step or a cached workspace cannot expose it.\n      - name: Remove the decrypted source\n        if: always()\n        shell: bash\n        working-directory: ";
pub const WF_6: &'static str = "\n        run: |\n          rm -rf src vendor Cargo.toml Cargo.lock capsule.nyeda || true\n\n      - name: Upload artifact\n        uses: actions/upload-artifact@v4\n        with:\n          name: nyedarch-capsule-${{ matrix.target }}\n          path: out/*.nyarch\n          if-no-files-found: error\n";

/// One matrix line of the workflow for a target.
pub open spec fn matrix_line(t: Target) -> Seq<char> {
    "          - { os: "@ + spec_runs_on(t) + ", target: "@ + spec_rust_target(t) + " }\n"@
}

/// The matrix block: one line per target, in order.
pub open spec fn matrix(targets: Seq<Target>) -> Seq<char>
    decreases targets.len(),
{
    if targets.len() == 0 {
        Seq::empty()
    } else {
        matrix(targets.drop_last()) + matrix_line(targets.last())
    }
}

/// The workflow text for `targets`, building the crate under `runtime_dir`.
pub open spec fn spec_workflow_yaml(targets: Seq<Target>, rd: Seq<char>) -> Seq<char> {
    WF_0@ + matrix(targets) + WF_1@ + rd + WF_2@ + rd + WF_3@ + rd + WF_4@ + rd + WF_5@ + rd + WF_6@
}

/// Generate the workflow YAML. `runtime_dir` is the repository path holding
/// the generated runtime crate. The workflow reads only repository secrets
/// and never echoes one.
pub fn workflow_yaml(targets: &[Target], runtime_dir: &str) -> (y: String)
    ensures
        y@ == spec_workflow_yaml(targets@, runtime_dir@),
{
    let mut m = String::new();
    let mut i: usize = 0;
    while i < targets.len()
        invariant
            i <= targets@.len(),
            m@ == matrix(targets@.take(i as int)),
        decreases targets@.len() - i,
    {
        let t = targets[i];
        m.append("          - { os: ");
        m.append(t.runs_on());
        m.append(", target: ");
        m.append(t.rust_target());
        m.append(" }\n");
        assert(targets@.take(i + 1).drop_last() =~= targets@.take(i as int));
        i = i + 1;
    }
    assert(targets@.take(targets@.len() as int) =~= targets@);
    let mut y = String::from_str(WF_0);
    y.append(m.as_str());
    y.append(WF_1);
    y.append(runtime_dir);
    y.append(WF_2);
    y.append(runtime_dir);
    y.append(WF_3);
    y.append(runtime_dir);
    y.append(WF_4);
    y.append(runtime_dir);
    y.append(WF_5);
    y.append(runtime_dir);
    y.append(WF_6);
    y
}

} // verus!
