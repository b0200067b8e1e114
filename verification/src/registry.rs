//! The table of known search providers, one per supported application.

use vstd::prelude::*;
use crate::provider::id_of;
use crate::version::ConfigLocation;

verus! {

/// A search provider to expose from this service.
pub struct ProviderDefinition {
    /// A human readable label for this provider.
    pub label: String,
    /// The ID (that is, the filename) of the desktop file of the
    /// corresponding app.
    pub desktop_id: String,
    /// The relative object path to expose this provider at.
    pub relative_obj_path: String,
    /// The location of the configuration of the corresponding product.
    pub config: ConfigLocation,
}

/// The full object path for a provider with the given relative path.
pub open spec fn objpath_of(relative: Seq<char>) -> Seq<char> {
    "/de/swsnr/searchprovider/jetbrains/"@ + relative
}

/// The identifier prefix of one application: every result identifier of
/// that application starts with it.
pub open spec fn id_prefix_of(app_id: Seq<char>) -> Seq<char> {
    "jetbrains-search-provider-"@ + app_id + "-"@
}

impl ProviderDefinition {
    /// Gets the full object path for this provider.
    pub fn objpath(&self) -> (r: String)
        ensures
            r@ == objpath_of(self.relative_obj_path@),
    {
        let mut path = String::new();
        path.append("/de/swsnr/searchprovider/jetbrains/");
        path.append(self.relative_obj_path.as_str());
        path
    }
}

/// The name to request on the bus.
pub fn busname() -> (r: &'static str)
    ensures
        r@ == "de.swsnr.searchprovider.Jetbrains"@,
{
    "de.swsnr.searchprovider.Jetbrains"
}

/// Whether `p` describes the given provider, field for field.
pub open spec fn defines(
    p: ProviderDefinition,
    label: Seq<char>,
    desktop_id: Seq<char>,
    relative_obj_path: Seq<char>,
    vendor_dir: Seq<char>,
    config_glob: Seq<char>,
    projects_filename: Seq<char>,
) -> bool {
    p.label@ == label && p.desktop_id@ == desktop_id && p.relative_obj_path@ == relative_obj_path
        && p.config.vendor_dir@ == vendor_dir && p.config.config_glob@ == config_glob
        && p.config.projects_filename@ == projects_filename
}

/// The table of known providers, entry by entry.
pub open spec fn is_provider_table(table: Seq<ProviderDefinition>) -> bool {
    table.len() == 10 && defines(
        table[0],
        "CLion (toolbox)"@,
        "jetbrains-clion.desktop"@,
        "toolbox/clion"@,
        "JetBrains"@,
        "CLion*"@,
        "recentProjects.xml"@,
    ) && defines(
        table[1],
        "GoLand (toolbox)"@,
        "jetbrains-goland.desktop"@,
        "toolbox/goland"@,
        "JetBrains"@,
        "GoLand*"@,
        "recentProjects.xml"@,
    ) && defines(
        table[2],
        "IDEA (toolbox)"@,
        "jetbrains-idea.desktop"@,
        "toolbox/idea"@,
        "JetBrains"@,
        "IntelliJIdea*"@,
        "recentProjects.xml"@,
    ) && defines(
        table[3],
        "IDEA Community Edition (toolbox)"@,
        "jetbrains-idea-ce.desktop"@,
        "toolbox/ideace"@,
        "JetBrains"@,
        "IdeaIC*"@,
        "recentProjects.xml"@,
    ) && defines(
        table[4],
        "PHPStorm (toolbox)"@,
        "jetbrains-phpstorm.desktop"@,
        "toolbox/phpstorm"@,
        "JetBrains"@,
        "PhpStorm*"@,
        "recentProjects.xml"@,
    ) && defines(
        table[5],
        "PyCharm (toolbox)"@,
        "jetbrains-pycharm.desktop"@,
        "toolbox/pycharm"@,
        "JetBrains"@,
        "PyCharm*"@,
        "recentProjects.xml"@,
    ) && defines(
        table[6],
        "Rider (toolbox)"@,
        "jetbrains-rider.desktop"@,
        "toolbox/rider"@,
        "JetBrains"@,
        "Rider*"@,
        "recentSolutions.xml"@,
    ) && defines(
        table[7],
        "RubyMine (toolbox)"@,
        "jetbrains-rubymine.desktop"@,
        "toolbox/rubymine"@,
        "JetBrains"@,
        "RubyMine*"@,
        "recentProjects.xml"@,
    ) && defines(
        table[8],
        "Android Studio (toolbox)"@,
        "jetbrains-studio.desktop"@,
        "toolbox/studio"@,
        "Google"@,
        "AndroidStudio*"@,
        "recentProjects.xml"@,
    ) && defines(
        table[9],
        "WebStorm (toolbox)"@,
        "jetbrains-webstorm.desktop"@,
        "toolbox/webstorm"@,
        "JetBrains"@,
        "WebStorm*"@,
        "recentProjects.xml"@,
    )
}

/// One entry of the provider table.
fn make_provider(
    label: &str,
    desktop_id: &str,
    relative_obj_path: &str,
    vendor_dir: &str,
    config_glob: &str,
    projects_filename: &str,
) -> (r: ProviderDefinition)
    ensures
        defines(r, label@, desktop_id@, relative_obj_path@, vendor_dir@, config_glob@,
            projects_filename@),
{
    ProviderDefinition {
        label: label.to_owned(),
        desktop_id: desktop_id.to_owned(),
        relative_obj_path: relative_obj_path.to_owned(),
        config: ConfigLocation {
            vendor_dir: vendor_dir.to_owned(),
            config_glob: config_glob.to_owned(),
            projects_filename: projects_filename.to_owned(),
        },
    }
}

/// Known search providers.
pub fn providers() -> (r: Vec<ProviderDefinition>)
    ensures
        is_provider_table(r@),
{
    let mut table: Vec<ProviderDefinition> = Vec::new();
    table.push(
        make_provider(
            "CLion (toolbox)",
            "jetbrains-clion.desktop",
            "toolbox/clion",
            "JetBrains",
            "CLion*",
            "recentProjects.xml",
        ),
    );
    table.push(
        make_provider(
            "GoLand (toolbox)",
            "jetbrains-goland.desktop",
            "toolbox/goland",
            "JetBrains",
            "GoLand*",
            "recentProjects.xml",
        ),
    );
    table.push(
        make_provider(
            "IDEA (toolbox)",
            "jetbrains-idea.desktop",
            "toolbox/idea",
            "JetBrains",
            "IntelliJIdea*",
            "recentProjects.xml",
        ),
    );
    table.push(
        make_provider(
            "IDEA Community Edition (toolbox)",
            "jetbrains-idea-ce.desktop",
            "toolbox/ideace",
            "JetBrains",
            "IdeaIC*",
            "recentProjects.xml",
        ),
    );
    table.push(
        make_provider(
            "PHPStorm (toolbox)",
            "jetbrains-phpstorm.desktop",
            "toolbox/phpstorm",
            "JetBrains",
            "PhpStorm*",
            "recentProjects.xml",
        ),
    );
    table.push(
        make_provider(
            "PyCharm (toolbox)",
            "jetbrains-pycharm.desktop",
            "toolbox/pycharm",
            "JetBrains",
            "PyCharm*",
            "recentProjects.xml",
        ),
    );
    table.push(
        make_provider(
            "Rider (toolbox)",
            "jetbrains-rider.desktop",
            "toolbox/rider",
            "JetBrains",
            "Rider*",
            "recentSolutions.xml",
        ),
    );
    table.push(
        make_provider(
            "RubyMine (toolbox)",
            "jetbrains-rubymine.desktop",
            "toolbox/rubymine",
            "JetBrains",
            "RubyMine*",
            "recentProjects.xml",
        ),
    );
    table.push(
        make_provider(
            "Android Studio (toolbox)",
            "jetbrains-studio.desktop",
            "toolbox/studio",
            "Google",
            "AndroidStudio*",
            "recentProjects.xml",
        ),
    );
    table.push(
        make_provider(
            "WebStorm (toolbox)",
            "jetbrains-webstorm.desktop",
            "toolbox/webstorm",
            "JetBrains",
            "WebStorm*",
            "recentProjects.xml",
        ),
    );
    table
}

/// Two different sequences stay different between a common prefix and a
/// common suffix.
proof fn lemma_affix_ne(pre: Seq<char>, a: Seq<char>, b: Seq<char>, suf: Seq<char>)
    requires
        a != b,
    ensures
        pre + a + suf != pre + b + suf,
{
    if a.len() == b.len() {
        if pre + a + suf == pre + b + suf {
            assert forall|k: int| 0 <= k < a.len() implies a[k] == b[k] by {
                assert((pre + a + suf)[pre.len() + k] == a[k]);
                assert((pre + b + suf)[pre.len() + k] == b[k]);
            }
            assert(a =~= b);
        }
    } else {
        assert((pre + a + suf).len() != (pre + b + suf).len());
    }
}

/// Law: each configured application has an identifier prefix and an object
/// path of its own; no two providers of the table share either.
pub proof fn lemma_provider_identities_unique(table: Seq<ProviderDefinition>)
    requires
        is_provider_table(table),
    ensures
        forall|i: int, j: int|
            0 <= i < j < table.len() ==> (#[trigger] table[i]).desktop_id@ != (
            #[trigger] table[j]).desktop_id@,
        forall|i: int, j: int|
            0 <= i < j < table.len() ==> id_prefix_of((#[trigger] table[i]).desktop_id@)
                != id_prefix_of((#[trigger] table[j]).desktop_id@),
        forall|i: int, j: int|
            0 <= i < j < table.len() ==> objpath_of((#[trigger] table[i]).relative_obj_path@)
                != objpath_of((#[trigger] table[j]).relative_obj_path@),
{
    reveal_strlit("jetbrains-clion.desktop");
    reveal_strlit("jetbrains-goland.desktop");
    reveal_strlit("jetbrains-idea.desktop");
    reveal_strlit("jetbrains-idea-ce.desktop");
    reveal_strlit("jetbrains-phpstorm.desktop");
    reveal_strlit("jetbrains-pycharm.desktop");
    reveal_strlit("jetbrains-rider.desktop");
    reveal_strlit("jetbrains-rubymine.desktop");
    reveal_strlit("jetbrains-studio.desktop");
    reveal_strlit("jetbrains-webstorm.desktop");
    reveal_strlit("toolbox/clion");
    reveal_strlit("toolbox/goland");
    reveal_strlit("toolbox/idea");
    reveal_strlit("toolbox/ideace");
    reveal_strlit("toolbox/phpstorm");
    reveal_strlit("toolbox/pycharm");
    reveal_strlit("toolbox/rider");
    reveal_strlit("toolbox/rubymine");
    reveal_strlit("toolbox/studio");
    reveal_strlit("toolbox/webstorm");
    assert forall|i: int, j: int| 0 <= i < j < table.len() implies (#[trigger] table[i]).desktop_id@
        != (#[trigger] table[j]).desktop_id@ by {
        assert(table[i].desktop_id@[10] != table[j].desktop_id@[10] || table[i].desktop_id@.len()
            != table[j].desktop_id@.len());
    }
    assert forall|i: int, j: int| 0 <= i < j < table.len() implies id_prefix_of(
        (#[trigger] table[i]).desktop_id@,
    ) != id_prefix_of((#[trigger] table[j]).desktop_id@) by {
        lemma_affix_ne(
            "jetbrains-search-provider-"@,
            table[i].desktop_id@,
            table[j].desktop_id@,
            "-"@,
        );
    }
    assert forall|i: int, j: int| 0 <= i < j < table.len() implies objpath_of(
        (#[trigger] table[i]).relative_obj_path@,
    ) != objpath_of((#[trigger] table[j]).relative_obj_path@) by {
        assert(table[i].relative_obj_path@[8] != table[j].relative_obj_path@[8]
            || table[i].relative_obj_path@.len() != table[j].relative_obj_path@.len());
        lemma_affix_ne(
            "/de/swsnr/searchprovider/jetbrains/"@,
            table[i].relative_obj_path@,
            table[j].relative_obj_path@,
            Seq::empty(),
        );
        assert("/de/swsnr/searchprovider/jetbrains/"@ + table[i].relative_obj_path@ + Seq::empty()
            =~= objpath_of(table[i].relative_obj_path@));
        assert("/de/swsnr/searchprovider/jetbrains/"@ + table[j].relative_obj_path@ + Seq::empty()
            =~= objpath_of(table[j].relative_obj_path@));
    }
}

/// Every identifier of an application starts with that application's
/// identifier prefix.
pub proof fn lemma_id_has_prefix(app_id: Seq<char>, path: Seq<char>)
    ensures
        id_of(app_id, path) == id_prefix_of(app_id) + path,
{
    assert(id_of(app_id, path) =~= id_prefix_of(app_id) + path);
}

/// Law: identifiers from two different configured applications never
/// collide, whatever paths the two items have.
pub proof fn lemma_provider_ids_never_collide(
    table: Seq<ProviderDefinition>,
    i: int,
    j: int,
    p1: Seq<char>,
    p2: Seq<char>,
)
    requires
        is_provider_table(table),
        0 <= i < j < table.len(),
    ensures
        id_of(table[i].desktop_id@, p1) != id_of(table[j].desktop_id@, p2),
{
    reveal_strlit("jetbrains-clion.desktop");
    reveal_strlit("jetbrains-goland.desktop");
    reveal_strlit("jetbrains-idea.desktop");
    reveal_strlit("jetbrains-idea-ce.desktop");
    reveal_strlit("jetbrains-phpstorm.desktop");
    reveal_strlit("jetbrains-pycharm.desktop");
    reveal_strlit("jetbrains-rider.desktop");
    reveal_strlit("jetbrains-rubymine.desktop");
    reveal_strlit("jetbrains-studio.desktop");
    reveal_strlit("jetbrains-webstorm.desktop");
    let a1 = table[i].desktop_id@;
    let a2 = table[j].desktop_id@;
    // Any two of the configured desktop ids differ within their first 22
    // characters, so neither is a prefix of the other inside an identifier.
    assert(a1.len() >= 22 && a2.len() >= 22);
    assert(a1[10] != a2[10] || a1[11] != a2[11] || a1[14] != a2[14]);
    if id_of(a1, p1) == id_of(a2, p2) {
        let pre = "jetbrains-search-provider-"@;
        assert forall|k: int| 0 <= k < 22 implies a1[k] == a2[k] by {
            assert(id_of(a1, p1)[pre.len() + k] == a1[k]);
            assert(id_of(a2, p2)[pre.len() + k] == a2[k]);
        }
    }
}

} // verus!
