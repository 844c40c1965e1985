use codextool::skill_market::{
    github_tree_plan, GithubTreePlan,
    github_file_relative_path,
    git_source_from_parts, UrlParts,
    git_clone_arguments, git_skill_root, git_sparse_checkout_arguments, github_install_files,
    github_install_start, github_skill_name_check, github_tree_http_failure,
    select_git_skill_candidates, GitSkillFile, GitSkillRoot, GithubInstallStart, GithubTreeItem,
    front_matter_step, locate_repository_skill, repository_skill_missing, FrontMatterStep,
    RepositorySkillLookup, github_coordinates, is_safe_relative_skill_path, is_safe_skill_name,
    parse_frontmatter_content, resolve_github_skill_file, search_http_failure,
    skill_markdown_body, skill_search_provider, skills_sh_entry_id, skills_sh_github_url,
    skillsmp_bearer_key, skillsmp_failure_message, split_local_skill_path, trim_http_error,
    unquote_yaml_scalar, valid_git_source, validated_search_query, SkillSearchProvider,
    TreeEntry,
};

#[test]
fn parses_github_repository_and_tree_urls() {
    let repository = valid_git_source("https://github.com/vercel-labs/skills", false).unwrap();
    assert_eq!(repository.clone_url, "https://github.com/vercel-labs/skills.git");
    assert!(repository.subdirectory.is_none());

    let nested = valid_git_source(
        "https://github.com/openclaw/openclaw/tree/main/extensions/imessage/skills/imsg",
        false,
    )
    .unwrap();
    assert_eq!(nested.clone_url, "https://github.com/openclaw/openclaw.git");
    assert_eq!(
        nested.subdirectory,
        Some("extensions/imessage/skills/imsg".to_string())
    );
}

#[test]
fn strips_frontmatter_from_skill_detail_content() {
    let raw = "---\nname: demo\ndescription: Demo skill\n---\n\n# Demo\n\nUse this skill safely.";
    assert_eq!(skill_markdown_body(raw), "# Demo\n\nUse this skill safely.");
}

#[test]
fn locates_requested_skill_file_in_github_tree() {
    let source = valid_git_source("https://github.com/vercel-labs/skills.git", false).unwrap();
    let tree = vec![TreeEntry {
        path: "skills/find-skills/SKILL.md".to_string(),
        kind: "blob".to_string(),
    }];
    let (root, item) =
        resolve_github_skill_file(&tree, source.subdirectory.as_deref(), "find-skills").unwrap();
    assert_eq!(root, "skills/find-skills");
    assert_eq!(tree[item].path, "skills/find-skills/SKILL.md");
}

#[test]
fn prefers_the_shallowest_directory_named_like_the_skill() {
    let entry = |path: &str, kind: &str| TreeEntry { path: path.to_string(), kind: kind.to_string() };
    let tree = vec![
        entry("a/b/Demo/SKILL.md", "blob"),
        entry("x/demo/SKILL.md", "blob"),
        entry("y/demo/SKILL.md", "blob"),
        entry("other/SKILL.md", "tree"),
    ];
    let (root, item) = resolve_github_skill_file(&tree, None, "DEMO").unwrap();
    assert_eq!(root, "x/demo");
    assert_eq!(item, 1);
    assert_eq!(
        resolve_github_skill_file(&tree, None, "missing").unwrap_err(),
        "GitHub HTTPS 清单中未定位到 Skill：missing"
    );
    assert_eq!(
        resolve_github_skill_file(&tree, Some("nested\\dir"), "demo").unwrap_err(),
        "GitHub HTTPS 清单中未找到 nested/dir/SKILL.md"
    );
    let single = vec![entry("SKILL.md", "blob")];
    assert_eq!(resolve_github_skill_file(&single, None, "any").unwrap(), (String::new(), 0));
}

#[test]
fn rejects_unsupported_git_sources() {
    assert_eq!(valid_git_source("not a url", false).unwrap_err(), "Git URL 格式无效。");
    assert_eq!(
        valid_git_source("ftp://example.com/repo", false).unwrap_err(),
        "仅支持 http(s)、ssh 或 git 格式的仓库地址。"
    );
    assert_eq!(
        valid_git_source("https://github.com/o/r/tree/main", false).unwrap_err(),
        "GitHub Skill 子目录地址无效。"
    );
    let other = valid_git_source(" https://gitlab.com/o/r.git ", false).unwrap();
    assert_eq!(other.clone_url, "https://gitlab.com/o/r.git");
    assert_eq!(
        valid_git_source("https://github.com/o/r.git.git", false).unwrap().clone_url,
        "https://github.com/o/r.git"
    );
}

#[test]
fn reads_github_coordinates() {
    assert_eq!(
        github_coordinates("https://github.com/owner/repo.git"),
        Some(("owner".to_string(), "repo".to_string()))
    );
    assert_eq!(github_coordinates("https://gitlab.com/owner/repo.git"), None);
    assert_eq!(github_coordinates("https://github.com/owner"), None);
}

#[test]
fn parses_skill_front_matter() {
    let raw = "---\r\nname: \"demo-skill\"\r\ndescription: >\r\ndescription: 'Does things'\r\n---\r\nbody";
    assert_eq!(
        parse_frontmatter_content(raw),
        Some(("demo-skill".to_string(), "Does things".to_string()))
    );
    assert_eq!(
        parse_frontmatter_content("---\nname: plain\n---\n"),
        Some(("plain".to_string(), "内置 Skill：plain".to_string()))
    );
    assert_eq!(parse_frontmatter_content("name: x\n"), None);
    assert_eq!(parse_frontmatter_content("---\nname: ../x\n---"), None);
    assert_eq!(unquote_yaml_scalar("  \"'quoted'\"  "), "quoted");
}

#[test]
fn checks_skill_names_and_relative_paths() {
    assert!(is_safe_skill_name("my-skill_1.0"));
    assert!(!is_safe_skill_name(".."));
    assert!(!is_safe_skill_name("a/b"));
    assert!(!is_safe_skill_name(&"a".repeat(129)));
    assert!(is_safe_relative_skill_path("team/skill", false));
    assert!(is_safe_relative_skill_path("./skill", false));
    assert!(!is_safe_relative_skill_path("../skill", false));
    assert!(!is_safe_relative_skill_path("/abs", false));
    assert!(!is_safe_relative_skill_path("", false));
    assert!(is_safe_relative_skill_path("a\\..\\b", false));
    assert!(!is_safe_relative_skill_path("a\\..\\b", true));
    assert!(!is_safe_relative_skill_path("C:skill", true));
    assert!(is_safe_relative_skill_path("a..b/c", true));
}

#[test]
fn splits_local_skill_ids() {
    assert_eq!(split_local_skill_path("enabled:team/demo", false), Ok((true, "team/demo".to_string())));
    assert_eq!(split_local_skill_path("disabled:demo", false), Ok((false, "demo".to_string())));
    assert_eq!(split_local_skill_path("other:demo", false), Err("Skill 路径无效。".to_string()));
    assert_eq!(split_local_skill_path("enabled:../demo", false), Err("Skill 路径无效。".to_string()));
    assert_eq!(split_local_skill_path("demo", false), Err("Skill 路径无效。".to_string()));
}

#[test]
fn shortens_http_error_bodies() {
    assert_eq!(trim_http_error("  not\n found  "), "not found");
    let long = "x".repeat(400);
    assert_eq!(trim_http_error(&long), format!("{}…", "x".repeat(320)));
}

#[test]
fn keeps_whole_text_without_a_closed_front_matter() {
    assert_eq!(skill_markdown_body("---\nname: demo\n# open"), "---\nname: demo\n# open");
    let long = "y".repeat(60_001);
    assert_eq!(
        skill_markdown_body(&long),
        format!("{}\n\n…内容过长，已截断显示。", "y".repeat(60_000))
    );
}

#[test]
fn search_queries_are_trimmed_and_bounded() {
    assert_eq!(validated_search_query("  pdf tools ").unwrap(), "pdf tools");
    assert_eq!(
        validated_search_query("   ").unwrap_err(),
        "请输入 Skill 名称或功能关键词。"
    );
    let long = "字".repeat(201);
    assert_eq!(
        validated_search_query(&long).unwrap_err(),
        "搜索关键词不能超过 200 个字符。"
    );
    assert!(validated_search_query(&"字".repeat(200)).is_ok());
}

#[test]
fn search_providers_are_recognised_by_name() {
    assert_eq!(skill_search_provider("skillsMp").unwrap(), SkillSearchProvider::SkillsMp);
    assert_eq!(skill_search_provider("skillsSh").unwrap(), SkillSearchProvider::SkillsSh);
    assert_eq!(
        skill_search_provider("github").unwrap_err(),
        "不支持的 Skill 搜索来源。"
    );
}

#[test]
fn skillsmp_requests_and_failures() {
    assert_eq!(skillsmp_bearer_key(Some("  key-1 ")).as_deref(), Some("key-1"));
    assert_eq!(skillsmp_bearer_key(Some("   ")), None);
    assert_eq!(skillsmp_bearer_key(None), None);
    assert_eq!(skillsmp_failure_message(Some("quota")), "SkillsMP 搜索失败：quota");
    assert_eq!(skillsmp_failure_message(None), "SkillsMP 搜索失败。");
    assert_eq!(
        search_http_failure("skills.sh", 503, "  service\n  unavailable "),
        "skills.sh 搜索失败（HTTP 503）：service unavailable"
    );
}

#[test]
fn skills_sh_entries_get_ids_and_clone_urls() {
    assert_eq!(skills_sh_entry_id("  ", "skill-7"), "skill-7");
    assert_eq!(skills_sh_entry_id("id-1", "skill-7"), "id-1");
    assert_eq!(
        skills_sh_github_url(" vercel-labs/skills ").as_deref(),
        Some("https://github.com/vercel-labs/skills.git")
    );
    assert_eq!(skills_sh_github_url("standalone"), None);
}

#[test]
fn a_single_skill_file_locates_the_repository_skill() {
    match locate_repository_skill("README.md\ntools/lint/SKILL.md\n", "anything") {
        RepositorySkillLookup::Directory(dir) => assert_eq!(dir, "tools/lint"),
        RepositorySkillLookup::ReadFrontMatter(_) => panic!("expected a directory"),
    }
    match locate_repository_skill("SKILL.md\r\n", "x") {
        RepositorySkillLookup::Directory(dir) => assert_eq!(dir, ""),
        RepositorySkillLookup::ReadFrontMatter(_) => panic!("expected the root"),
    }
}

#[test]
fn the_shallowest_directory_named_like_the_skill_wins() {
    let tree = "skills/deep/Demo/SKILL.md\nskills/demo/SKILL.md\nother/SKILL.md\nx/DEMO/SKILL.md\nnotes/SKILL.md.bak\n";
    match locate_repository_skill(tree, "demo") {
        RepositorySkillLookup::Directory(dir) => assert_eq!(dir, "skills/demo"),
        RepositorySkillLookup::ReadFrontMatter(_) => panic!("expected a directory"),
    }
}

#[test]
fn unnamed_skill_directories_are_read_for_their_front_matter() {
    match locate_repository_skill("a/SKILL.md\nb/SKILL.md\nc.txt\n", "demo") {
        RepositorySkillLookup::ReadFrontMatter(paths) => {
            assert_eq!(paths, vec!["a/SKILL.md".to_string(), "b/SKILL.md".to_string()])
        }
        RepositorySkillLookup::Directory(_) => panic!("expected candidates"),
    }
    let many: String = (0..100).map(|i| format!("s{i}/SKILL.md\n")).collect();
    match locate_repository_skill(&many, "demo") {
        RepositorySkillLookup::ReadFrontMatter(paths) => {
            assert_eq!(paths.len(), 80);
            assert_eq!(paths[79], "s79/SKILL.md");
        }
        RepositorySkillLookup::Directory(_) => panic!("expected candidates"),
    }
}

#[test]
fn front_matter_steps_find_stop_or_go_on() {
    let declared = Ok("---\nname: Demo\n---\nbody".to_string());
    match front_matter_step("pkg/SKILL.md", declared, "demo") {
        FrontMatterStep::Found(dir) => assert_eq!(dir, "pkg"),
        _ => panic!("expected the skill"),
    }
    let other = Ok("---\nname: other\n---\n".to_string());
    assert!(matches!(front_matter_step("pkg/SKILL.md", other, "demo"), FrontMatterStep::Next));
    let timeout = Err("Git 命令超时".to_string());
    match front_matter_step("pkg/SKILL.md", timeout, "demo") {
        FrontMatterStep::Stop(error) => assert_eq!(error, "Git 命令超时"),
        _ => panic!("expected to stop"),
    }
    let failed = Err("fatal: bad object".to_string());
    assert!(matches!(front_matter_step("SKILL.md", failed, "demo"), FrontMatterStep::Next));
    assert_eq!(repository_skill_missing("demo"), "仓库中未找到 Skill：demo");
}

#[test]
fn git_install_clones_sparsely_when_targeted() {
    assert_eq!(
        git_clone_arguments("https://github.com/o/r.git", "/tmp/x/repo", true),
        vec!["clone", "--depth", "1", "--no-tags", "--single-branch", "--filter=blob:none", "--sparse", "--no-checkout", "--", "https://github.com/o/r.git", "/tmp/x/repo"]
    );
    assert_eq!(git_clone_arguments("u", "r", false).len(), 8);
    assert_eq!(
        git_sparse_checkout_arguments("/r", ""),
        vec!["-C", "/r", "sparse-checkout", "disable"]
    );
    assert_eq!(
        git_sparse_checkout_arguments("/r", "skills/demo"),
        vec!["-C", "/r", "sparse-checkout", "set", "--no-cone", "--", "skills/demo"]
    );
    assert!(matches!(git_skill_root(Some("a/b".to_string()), Some("x")), GitSkillRoot::Given(p) if p == "a/b"));
    assert!(matches!(git_skill_root(None, Some("  demo ")), GitSkillRoot::Locate(n) if n == "demo"));
    assert!(matches!(git_skill_root(None, Some("  ")), GitSkillRoot::RepositoryRoot));
}

fn found(name: &str, path: &str) -> GitSkillFile {
    GitSkillFile { name: name.to_string(), relative_path: path.to_string() }
}

#[test]
fn git_install_picks_the_shallowest_copy_of_each_skill() {
    let files = vec![
        found("beta", "pkg/beta"),
        found("alpha", "a/b/alpha"),
        found("_template", "_template"),
        found("alpha", "alpha"),
        found("beta", "beta2"),
    ];
    assert_eq!(select_git_skill_candidates(&files, None).unwrap(), vec![3, 4]);
    assert_eq!(select_git_skill_candidates(&files, Some(" ALPHA ")).unwrap(), vec![3]);
    assert_eq!(
        select_git_skill_candidates(&files, Some("gamma")).unwrap_err(),
        "仓库中未找到 Skill：gamma"
    );
    assert_eq!(
        select_git_skill_candidates(&vec![found("_template", "")], None).unwrap_err(),
        "该 Git 仓库中没有可安装的 SKILL.md。"
    );
}

fn item(path: &str, kind: &str, mode: &str, size: Option<u64>) -> GithubTreeItem {
    GithubTreeItem { path: path.to_string(), kind: kind.to_string(), mode: mode.to_string(), size }
}

#[test]
fn github_install_checks_the_skill_files() {
    match github_install_start("https://github.com/o/r", false, Some(" demo ")) {
        GithubInstallStart::FetchTree { tree_url, requested_name, subdirectory } => {
            assert_eq!(tree_url, "https://api.github.com/repos/o/r/git/trees/HEAD?recursive=1");
            assert_eq!(requested_name, "demo");
            assert!(subdirectory.is_none());
        }
        _ => panic!("expected a tree fetch"),
    }
    assert!(matches!(github_install_start("https://github.com/o/r", false, None), GithubInstallStart::NotApplicable));
    assert!(matches!(github_install_start("https://gitlab.com/o/r", false, Some("x")), GithubInstallStart::NotApplicable));
    assert!(matches!(github_install_start("ftp://x", false, Some("x")), GithubInstallStart::Failed(_)));

    let tree = vec![
        item("skills/demo", "tree", "040000", None),
        item("skills/demo/SKILL.md", "blob", "100644", Some(10)),
        item("skills/demo/ref.md", "blob", "100644", Some(20)),
        item("skills/demo2/SKILL.md", "blob", "100644", Some(5)),
        item("README.md", "blob", "100644", Some(5)),
    ];
    assert_eq!(github_install_files(&tree, "skills/demo").unwrap(), vec![1, 2]);
    assert_eq!(github_install_files(&tree, "").unwrap(), vec![1, 2, 3, 4]);
    assert_eq!(github_install_files(&tree, "none").unwrap_err(), "Skill 文件数量异常，安装已取消。");
    let linked = vec![item("s/SKILL.md", "blob", "120000", None)];
    assert_eq!(github_install_files(&linked, "s").unwrap_err(), "Skill 包含符号链接，出于安全原因拒绝安装。");
    let big = vec![item("s/a", "blob", "100644", Some(20 * 1024 * 1024)), item("s/b", "blob", "100644", Some(5 * 1024 * 1024))];
    assert_eq!(github_install_files(&big, "s").unwrap_err(), "Skill 文件总大小超过 24 MB，安装已取消。");

    assert_eq!(github_skill_name_check(Some("---\nname: Demo\n---\n"), "demo").unwrap(), "Demo");
    assert_eq!(github_skill_name_check(None, "demo").unwrap_err(), "SKILL.md 不是有效 UTF-8。");
    assert_eq!(github_skill_name_check(Some("nothing"), "demo").unwrap_err(), "SKILL.md 元数据无效。");
    assert_eq!(
        github_skill_name_check(Some("---\nname: other\n---\n"), "demo").unwrap_err(),
        "Skill 名称不匹配：请求 demo，仓库提供 other。"
    );
    assert_eq!(github_tree_http_failure(404, "Not   Found"), "GitHub HTTPS 清单失败（HTTP 404）：Not Found");
}

fn url_parts(scheme: &str, host: Option<&str>, segments: &[&str]) -> Option<UrlParts> {
    Some(UrlParts {
        scheme: scheme.to_string(),
        host: host.map(|h| h.to_string()),
        segments: Some(segments.iter().map(|s| s.to_string()).collect()),
    })
}

#[test]
fn git_source_follows_the_parsed_url() {
    let source = git_source_from_parts(
        "https://github.com/owner/repo.git/tree/main/skills/demo".to_string(),
        url_parts("https", Some("github.com"), &["owner", "repo.git", "tree", "main", "skills", "demo"]),
        false,
    )
    .unwrap();
    assert_eq!(source.clone_url, "https://github.com/owner/repo.git");
    assert_eq!(source.subdirectory.as_deref(), Some("skills/demo"));

    let other = git_source_from_parts(
        "ssh://git@example.com/team/repo".to_string(),
        url_parts("ssh", Some("example.com"), &["team", "repo"]),
        false,
    )
    .unwrap();
    assert_eq!(other.clone_url, "ssh://git@example.com/team/repo");
    assert!(other.subdirectory.is_none());

    assert_eq!(
        git_source_from_parts("nonsense".to_string(), None, false).unwrap_err(),
        "Git URL 格式无效。"
    );
    assert_eq!(
        git_source_from_parts("ftp://example.com/x".to_string(), url_parts("ftp", Some("example.com"), &["x"]), false)
            .unwrap_err(),
        "仅支持 http(s)、ssh 或 git 格式的仓库地址。"
    );
    assert_eq!(
        git_source_from_parts(
            "https://github.com/o/r/tree/main".to_string(),
            url_parts("https", Some("github.com"), &["o", "r", "tree", "main"]),
            false
        )
        .unwrap_err(),
        "GitHub Skill 子目录地址无效。"
    );
}

#[test]
fn github_files_land_inside_the_skill_directory() {
    assert_eq!(github_file_relative_path("skills/demo/SKILL.md", "skills/demo", false).unwrap(), "SKILL.md");
    assert_eq!(
        github_file_relative_path("skills/demo/assets/a.png", "skills/demo", false).unwrap(),
        "assets/a.png"
    );
    assert_eq!(github_file_relative_path("SKILL.md", "", false).unwrap(), "SKILL.md");
    assert_eq!(
        github_file_relative_path("other/x.md", "skills/demo", false).unwrap_err(),
        "Skill 文件路径无效，安装已取消。"
    );
    assert_eq!(
        github_file_relative_path("a/../x.md", "", false).unwrap_err(),
        "Skill 文件路径无效，安装已取消。"
    );
}

fn tree_item(path: &str, kind: &str, mode: &str) -> GithubTreeItem {
    GithubTreeItem { path: path.to_string(), kind: kind.to_string(), mode: mode.to_string(), size: Some(10) }
}

#[test]
fn github_tree_plan_selects_the_skill_files() {
    let items = vec![
        tree_item("skills", "tree", "040000"),
        tree_item("skills/demo", "tree", "040000"),
        tree_item("skills/demo/SKILL.md", "blob", "100644"),
        tree_item("skills/demo/a.txt", "blob", "100644"),
        tree_item("README.md", "blob", "100644"),
    ];
    match github_tree_plan(&items, false, None, "demo") {
        GithubTreePlan::FetchFiles { relative_root, skill_file, files } => {
            assert_eq!(relative_root, "skills/demo");
            assert_eq!(skill_file, 2);
            assert_eq!(files, vec![2, 3]);
        }
        other => panic!("unexpected plan {other:?}"),
    }
    match github_tree_plan(&items, true, None, "demo") {
        GithubTreePlan::RetryWithGit(m) => assert_eq!(m, "GitHub 仓库文件清单过大，改用 Git 备用下载。"),
        other => panic!("unexpected plan {other:?}"),
    }
    let mut linked = items;
    linked[3].mode = "120000".to_string();
    match github_tree_plan(&linked, false, None, "demo") {
        GithubTreePlan::Failed(m) => assert_eq!(m, "Skill 包含符号链接，出于安全原因拒绝安装。"),
        other => panic!("unexpected plan {other:?}"),
    }
}
